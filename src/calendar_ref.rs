use vstd::prelude::*;

verus! {

/// What a calendar reference is, as a value: its name, the path of the file
/// that holds the calendar, and whether it is the selected calendar.
pub ghost struct ReferenceView {
    pub name: Seq<char>,
    pub path: Seq<char>,
    pub active: bool,
}

/// Points at a file that holds a calendar.
#[derive(Clone, Debug)]
pub struct CalendarReference {
    name: String,
    path: String,
    active: bool,
}

impl View for CalendarReference {
    type V = ReferenceView;

    closed spec fn view(&self) -> ReferenceView {
        ReferenceView { name: self.name@, path: self.path@, active: self.active }
    }
}

impl CalendarReference {
    pub fn new(name: String, path: String, active: bool) -> (r: Self)
        ensures
            r@ == (ReferenceView { name: name@, path: path@, active }),
    {
        CalendarReference { name, path, active }
    }

    pub fn name(&self) -> (r: String)
        ensures
            r@ == self@.name,
    {
        self.name.clone()
    }

    pub fn path(&self) -> (r: String)
        ensures
            r@ == self@.path,
    {
        self.path.clone()
    }

    pub fn active(&self) -> (r: bool)
        ensures
            r == self@.active,
    {
        self.active
    }

    pub fn set_name(&mut self, name: String)
        ensures
            final(self)@ == (ReferenceView { name: name@, ..old(self)@ }),
    {
        self.name = name;
    }

    pub fn set_path(&mut self, path: String)
        ensures
            final(self)@ == (ReferenceView { path: path@, ..old(self)@ }),
    {
        self.path = path;
    }

    pub fn set_active(&mut self)
        ensures
            final(self)@ == (ReferenceView { active: true, ..old(self)@ }),
    {
        self.active = true;
    }

    pub fn set_inactive(&mut self)
        ensures
            final(self)@ == (ReferenceView { active: false, ..old(self)@ }),
    {
        self.active = false;
    }

    /// A copy whose view is the same.
    pub fn copy(&self) -> (r: Self)
        ensures
            r@ == self@,
    {
        CalendarReference { name: self.name.clone(), path: self.path.clone(), active: self.active }
    }
}

} // verus!
