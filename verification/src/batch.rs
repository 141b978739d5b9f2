//! Batch execution bookkeeping: which applications a volume carries and
//! which one runs next. Loading and jumping into an application is
//! machine work that lives outside this crate; the manager here only
//! tracks positions.

use vstd::prelude::*;

verus! {

/// The most applications a batch can hold.
pub const MAX_APP_NUM: usize = 16;

/// The application table and the cursor of the batch system.
pub struct AppManager {
    num_app: usize,
    current_app: usize,
    app_start: [usize; 17],
}

impl AppManager {
    /// Number of applications (specification only).
    pub closed spec fn spec_num_app(&self) -> int {
        self.num_app as int
    }

    /// The cursor (specification only).
    pub closed spec fn spec_current_app(&self) -> int {
        self.current_app as int
    }

    /// The start addresses, one per application plus the final end
    /// address (specification only).
    pub closed spec fn spec_app_start(&self) -> Seq<usize> {
        self.app_start@
    }

    /// A manager over `num_app` applications with their start table.
    pub fn new(num_app: usize, app_start: [usize; 17]) -> (r: AppManager)
        requires
            num_app <= MAX_APP_NUM,
        ensures
            r.spec_num_app() == num_app as int,
            r.spec_current_app() == 0,
            r.spec_app_start() == app_start@,
    {
        AppManager { num_app, current_app: 0, app_start }
    }

    /// The start and end addresses of application `id`.
    pub fn app_span(&self, id: usize) -> (r: (usize, usize))
        requires
            (id as int) < self.spec_num_app(),
            self.spec_num_app() <= MAX_APP_NUM as int,
        ensures
            r.0 == self.spec_app_start()[id as int],
            r.1 == self.spec_app_start()[id as int + 1],
    {
        broadcast use vstd::array::group_array_axioms;

        (self.app_start[id], self.app_start[id + 1])
    }

    /// Which application runs next.
    pub fn get_current_app(&self) -> (r: usize)
        ensures
            r as int == self.spec_current_app(),
    {
        self.current_app
    }

    /// Advance the cursor past the current application.
    pub fn move_to_next_app(&mut self)
        requires
            old(self).spec_current_app() < usize::MAX as int,
        ensures
            final(self).spec_current_app() == old(self).spec_current_app() + 1,
            final(self).spec_num_app() == old(self).spec_num_app(),
            final(self).spec_app_start() == old(self).spec_app_start(),
    {
        self.current_app += 1;
    }
}

} // verus!
