use vstd::prelude::*;

verus! {

/// A named moment by which something must be done.
#[derive(Clone, Debug)]
pub struct Deadline {
    name: String,
    date: i64,
    priority: u8,
}

pub ghost struct DeadlineView {
    pub name: Seq<char>,
    pub date: int,
    pub priority: u8,
}

impl View for Deadline {
    type V = DeadlineView;

    closed spec fn view(&self) -> DeadlineView {
        DeadlineView { name: self.name@, date: self.date as int, priority: self.priority }
    }
}

impl Deadline {
    pub fn new(name: String, date: i64, priority: u8) -> (r: Self)
        ensures
            r@ == (DeadlineView { name: name@, date: date as int, priority }),
    {
        Deadline { name, date, priority }
    }

    pub fn name(&self) -> (r: String)
        ensures
            r@ == self@.name,
    {
        self.name.clone()
    }

    pub fn priority(&self) -> (r: u8)
        ensures
            r == self@.priority,
    {
        self.priority
    }

    pub fn date(&self) -> (r: i64)
        ensures
            r == self@.date,
    {
        self.date
    }
}

} // verus!
