use vstd::prelude::*;

use crate::calendar_ref::{CalendarReference, ReferenceView};
use crate::seq_facts::lemma_filter_step;

verus! {

/// The ways in which an operation on the index refuses to go on.
#[derive(Debug, PartialEq, Eq, Structural)]
pub enum CalmarError {
    /// The user declined to overwrite a calendar that is in the way.
    Aborted,
    /// No calendar has the requested name.
    NotFound,
    /// More than one calendar has the requested name.
    AmbiguousName { e: usize },
    /// Not exactly one calendar is marked active.
    ActiveCalendarCount { e: usize },
}

pub open spec fn named(n: Seq<char>) -> spec_fn(ReferenceView) -> bool {
    |r: ReferenceView| r.name == n
}

pub open spec fn not_named(n: Seq<char>) -> spec_fn(ReferenceView) -> bool {
    |r: ReferenceView| r.name != n
}

pub open spec fn is_active() -> spec_fn(ReferenceView) -> bool {
    |r: ReferenceView| r.active
}

/// The references that are neither named `n` nor stored at `p`.
pub open spec fn clear_of(n: Seq<char>, p: Seq<char>) -> spec_fn(ReferenceView) -> bool {
    |r: ReferenceView| r.name != n && r.path != p
}

/// The references that are named `n` or stored at `p`.
pub open spec fn in_the_way(n: Seq<char>, p: Seq<char>) -> spec_fn(ReferenceView) -> bool {
    |r: ReferenceView| r.name == n || r.path == p
}

pub open spec fn count_named(s: Seq<ReferenceView>, n: Seq<char>) -> nat {
    s.filter(named(n)).len()
}

pub open spec fn count_active(s: Seq<ReferenceView>) -> nat {
    s.filter(is_active()).len()
}

/// The references after `n` has been made the one active calendar.
pub open spec fn activated(s: Seq<ReferenceView>, n: Seq<char>) -> Seq<ReferenceView> {
    s.map_values(|r: ReferenceView| ReferenceView { active: r.name == n, ..r })
}

pub open spec fn paths_of(s: Seq<ReferenceView>) -> Seq<Seq<char>> {
    s.map_values(|r: ReferenceView| r.path)
}

/// Whether adding `new` meets a reference of the same name, and then,
/// among the references of other names, one with the same path.
pub open spec fn collisions_of(s: Seq<ReferenceView>, new: ReferenceView) -> (bool, bool) {
    (
        exists|i: int| 0 <= i < s.len() && s[i].name == new.name,
        exists|i: int| 0 <= i < s.len() && s[i].name != new.name && s[i].path == new.path,
    )
}

/// Whether `add_entry` gives up: a collision that the user did not agree
/// to overwrite.
pub open spec fn add_declined(
    s: Seq<ReferenceView>,
    new: ReferenceView,
    overwrite_name: bool,
    overwrite_path: bool,
) -> bool {
    (collisions_of(s, new).0 && !overwrite_name) || (collisions_of(s, new).1 && !overwrite_path)
}

/// The list of all known calendars.
#[derive(Debug)]
pub struct CalendarIndex {
    calendars: Vec<CalendarReference>,
}

impl View for CalendarIndex {
    type V = Seq<ReferenceView>;

    closed spec fn view(&self) -> Seq<ReferenceView> {
        self.calendars@.map_values(|r: CalendarReference| r@)
    }
}

/// The references of `v` that are not named `n` and, when `by_path` holds,
/// not stored at `p` either.
fn retain_where(v: &Vec<CalendarReference>, n: &String, p: &String, by_path: bool) -> (r: Vec<
    CalendarReference,
>)
    ensures
        by_path ==> r@.map_values(|x: CalendarReference| x@) == v@.map_values(
            |x: CalendarReference| x@,
        ).filter(clear_of(n@, p@)),
        !by_path ==> r@.map_values(|x: CalendarReference| x@) == v@.map_values(
            |x: CalendarReference| x@,
        ).filter(not_named(n@)),
{
    let ghost s = v@.map_values(|x: CalendarReference| x@);
    let ghost pred = if by_path {
        clear_of(n@, p@)
    } else {
        not_named(n@)
    };
    let mut out: Vec<CalendarReference> = Vec::new();
    let mut i: usize = 0;
    while i < v.len()
        invariant
            i <= v.len(),
            s == v@.map_values(|x: CalendarReference| x@),
            pred == (if by_path {
                clear_of(n@, p@)
            } else {
                not_named(n@)
            }),
            out@.map_values(|x: CalendarReference| x@) == s.take(i as int).filter(pred),
        decreases v.len() - i,
    {
        let ghost before = out@;
        proof {
            lemma_filter_step(s, i as int, pred);
        }
        assert(s[i as int] == v@[i as int]@);
        let nm = v[i].name();
        let keep = if by_path {
            nm != *n && v[i].path() != *p
        } else {
            nm != *n
        };
        if keep {
            out.push(v[i].copy());
            assert(out@.map_values(|x: CalendarReference| x@) =~= before.map_values(
                |x: CalendarReference| x@,
            ).push(s[i as int]));
        }
        i = i + 1;
    }
    assert(s.take(v.len() as int) =~= s);
    out
}

/// The paths of the references of `v` that are named `n` or stored at `p`.
fn paths_in_the_way(v: &Vec<CalendarReference>, n: &String, p: &String) -> (r: Vec<String>)
    ensures
        r@.map_values(|x: String| x@) == paths_of(
            v@.map_values(|x: CalendarReference| x@).filter(in_the_way(n@, p@)),
        ),
{
    let ghost s = v@.map_values(|x: CalendarReference| x@);
    let mut out: Vec<String> = Vec::new();
    let mut i: usize = 0;
    while i < v.len()
        invariant
            i <= v.len(),
            s == v@.map_values(|x: CalendarReference| x@),
            out@.map_values(|x: String| x@) == paths_of(s.take(i as int).filter(in_the_way(n@, p@))),
        decreases v.len() - i,
    {
        proof {
            lemma_filter_step(s, i as int, in_the_way(n@, p@));
        }
        assert(s[i as int] == v@[i as int]@);
        let path = v[i].path();
        if v[i].name() == *n || path == *p {
            let ghost before = out@;
            out.push(path);
            assert(out@.map_values(|x: String| x@) =~= before.map_values(|x: String| x@).push(
                s[i as int].path,
            ));
            assert(paths_of(s.take(i + 1).filter(in_the_way(n@, p@))) =~= paths_of(
                s.take(i as int).filter(in_the_way(n@, p@)),
            ).push(s[i as int].path));
        }
        i = i + 1;
    }
    assert(s.take(v.len() as int) =~= s);
    out
}

impl CalendarIndex {
    pub fn new() -> (r: Self)
        ensures
            r@ == Seq::<ReferenceView>::empty(),
    {
        let r = CalendarIndex { calendars: Vec::new() };
        assert(r@ =~= Seq::<ReferenceView>::empty());
        r
    }

    pub fn calendars(&self) -> (r: &Vec<CalendarReference>)
        ensures
            r@.map_values(|x: CalendarReference| x@) == self@,
    {
        &self.calendars
    }

    pub fn calendars_mut(&mut self) -> (r: &mut Vec<CalendarReference>)
        ensures
            r@.map_values(|x: CalendarReference| x@) == old(self)@,
            final(r)@.map_values(|x: CalendarReference| x@) == final(self)@,
    {
        &mut self.calendars
    }

    /// How many references are named `name`.
    pub fn num_named(&self, name: &String) -> (r: usize)
        ensures
            r == count_named(self@, name@),
    {
        let ghost s = self@;
        let mut count: usize = 0;
        let mut i: usize = 0;
        while i < self.calendars.len()
            invariant
                i <= self.calendars.len(),
                s == self@,
                count == s.take(i as int).filter(named(name@)).len(),
                count <= i,
            decreases self.calendars.len() - i,
        {
            proof {
                lemma_filter_step(s, i as int, named(name@));
            }
            assert(s[i as int] == self.calendars@[i as int]@);
            if self.calendars[i].name() == *name {
                count = count + 1;
            }
            i = i + 1;
        }
        assert(s.take(s.len() as int) =~= s);
        count
    }

    /// How many references are marked active.
    pub fn number_of_active_calendars(&self) -> (r: usize)
        ensures
            r == count_active(self@),
    {
        let ghost s = self@;
        let mut count: usize = 0;
        let mut i: usize = 0;
        while i < self.calendars.len()
            invariant
                i <= self.calendars.len(),
                s == self@,
                count == s.take(i as int).filter(is_active()).len(),
                count <= i,
            decreases self.calendars.len() - i,
        {
            proof {
                lemma_filter_step(s, i as int, is_active());
            }
            assert(s[i as int] == self.calendars@[i as int]@);
            if self.calendars[i].active() {
                count = count + 1;
            }
            i = i + 1;
        }
        assert(s.take(s.len() as int) =~= s);
        count
    }

    /// The one reference marked active; an error with the number of active
    /// references when that number is not one.
    pub fn active_calendar_reference(&self) -> (r: Result<CalendarReference, CalmarError>)
        ensures
            count_active(self@) == 1 ==> (r matches Ok(c) && c@ == self@.filter(is_active())[0]),
            count_active(self@) != 1 ==> r == Err::<CalendarReference, CalmarError>(
                CalmarError::ActiveCalendarCount { e: count_active(self@) as usize },
            ),
    {
        let ghost s = self@;
        let mut count: usize = 0;
        let mut first: usize = 0;
        let mut i: usize = 0;
        while i < self.calendars.len()
            invariant
                i <= self.calendars.len(),
                s == self@,
                count == s.take(i as int).filter(is_active()).len(),
                count <= i,
                count > 0 ==> first < i && s.take(i as int).filter(is_active())[0] == s[first as int],
            decreases self.calendars.len() - i,
        {
            proof {
                lemma_filter_step(s, i as int, is_active());
            }
            assert(s[i as int] == self.calendars@[i as int]@);
            if self.calendars[i].active() {
                if count == 0 {
                    first = i;
                }
                count = count + 1;
            }
            i = i + 1;
        }
        assert(s.take(s.len() as int) =~= s);
        if count == 1 {
            Ok(self.calendars[first].copy())
        } else {
            Err(CalmarError::ActiveCalendarCount { e: count })
        }
    }

    /// Marks the references named `name` active and every other one inactive.
    pub fn set_active(&mut self, name: String)
        ensures
            final(self)@ == activated(old(self)@, name@),
    {
        let ghost s = self@;
        let mut out: Vec<CalendarReference> = Vec::new();
        let mut i: usize = 0;
        while i < self.calendars.len()
            invariant
                i <= self.calendars.len(),
                s == self@,
                out@.map_values(|x: CalendarReference| x@) == activated(s, name@).take(i as int),
            decreases self.calendars.len() - i,
        {
            let mut r = self.calendars[i].copy();
            if r.active() {
                r.set_inactive();
            }
            if r.name() == name {
                r.set_active();
            }
            let ghost before = out@;
            out.push(r);
            assert(out@.map_values(|x: CalendarReference| x@) =~= before.map_values(
                |x: CalendarReference| x@,
            ).push(activated(s, name@)[i as int]));
            assert(activated(s, name@).take(i + 1) =~= activated(s, name@).take(i as int).push(
                activated(s, name@)[i as int],
            ));
            i = i + 1;
        }
        assert(activated(s, name@).take(s.len() as int) =~= activated(s, name@));
        self.calendars = out;
    }

    /// How many references are named `name`, and where the first of them is.
    fn find_named(&self, name: &String) -> (r: (usize, usize))
        ensures
            r.0 == count_named(self@, name@),
            r.0 > 0 ==> r.1 < self@.len() && self@.filter(named(name@))[0] == self@[r.1 as int],
    {
        let ghost s = self@;
        let mut count: usize = 0;
        let mut first: usize = 0;
        let mut i: usize = 0;
        while i < self.calendars.len()
            invariant
                i <= self.calendars.len(),
                s == self@,
                count == s.take(i as int).filter(named(name@)).len(),
                count <= i,
                count > 0 ==> first < i && s.take(i as int).filter(named(name@))[0] == s[first as int],
            decreases self.calendars.len() - i,
        {
            proof {
                lemma_filter_step(s, i as int, named(name@));
            }
            assert(s[i as int] == self.calendars@[i as int]@);
            if self.calendars[i].name() == *name {
                if count == 0 {
                    first = i;
                }
                count = count + 1;
            }
            i = i + 1;
        }
        assert(s.take(s.len() as int) =~= s);
        (count, first)
    }

    /// Whether a new reference would meet one of the same name, and then,
    /// among the references of other names, one with the same path.
    pub fn collisions(&self, new_calendar: &CalendarReference) -> (r: (bool, bool))
        ensures
            r == collisions_of(self@, new_calendar@),
    {
        let ghost s = self@;
        let name = new_calendar.name();
        let path = new_calendar.path();
        let mut by_name = false;
        let mut by_path = false;
        let mut i: usize = 0;
        while i < self.calendars.len()
            invariant
                i <= self.calendars.len(),
                s == self@,
                name@ == new_calendar@.name,
                path@ == new_calendar@.path,
                by_name == exists|j: int| 0 <= j < i && s[j].name == name@,
                by_path == exists|j: int| 0 <= j < i && s[j].name != name@ && s[j].path == path@,
            decreases self.calendars.len() - i,
        {
            assert(s[i as int] == self.calendars@[i as int]@);
            let same_name = self.calendars[i].name() == name;
            if same_name {
                by_name = true;
            } else if self.calendars[i].path() == path {
                by_path = true;
            }
            i = i + 1;
        }
        (by_name, by_path)
    }

    /// Adds a reference to the index. A reference of the same name, and then
    /// one of the same path, are in the way: each such collision needs the
    /// user's agreement (`overwrite_name`, `overwrite_path`), and without it
    /// nothing changes. Otherwise the references in the way leave, the new
    /// one is appended, and the paths of the files that belonged to the
    /// removed references are returned, in index order, for deletion.
    pub fn add_entry(
        &mut self,
        new_calendar: &CalendarReference,
        overwrite_name: bool,
        overwrite_path: bool,
    ) -> (r: Result<Vec<String>, CalmarError>)
        ensures
            add_declined(old(self)@, new_calendar@, overwrite_name, overwrite_path) ==> (r == Err::<
                Vec<String>,
                CalmarError,
            >(CalmarError::Aborted) && final(self)@ == old(self)@),
            !add_declined(old(self)@, new_calendar@, overwrite_name, overwrite_path) ==> (
            r matches Ok(paths) && paths@.map_values(|x: String| x@) == paths_of(
                old(self)@.filter(in_the_way(new_calendar@.name, new_calendar@.path)),
            ) && final(self)@ == old(self)@.filter(
                clear_of(new_calendar@.name, new_calendar@.path),
            ).push(new_calendar@)),
    {
        let (by_name, by_path) = self.collisions(new_calendar);
        if (by_name && !overwrite_name) || (by_path && !overwrite_path) {
            return Err(CalmarError::Aborted);
        }
        let name = new_calendar.name();
        let path = new_calendar.path();
        let removed = paths_in_the_way(&self.calendars, &name, &path);
        let mut kept = retain_where(&self.calendars, &name, &path, true);
        let ghost before = kept@;
        kept.push(new_calendar.copy());
        assert(kept@.map_values(|x: CalendarReference| x@) =~= before.map_values(
            |x: CalendarReference| x@,
        ).push(new_calendar@));
        self.calendars = kept;
        Ok(removed)
    }

    /// Removes the one reference named `name` and returns the path of its
    /// file, for deletion. No reference of that name, or more than one, is an
    /// error, and the index stays as it was.
    pub fn delete_entry(&mut self, name: String) -> (r: Result<String, CalmarError>)
        ensures
            count_named(old(self)@, name@) == 0 ==> (r == Err::<String, CalmarError>(
                CalmarError::NotFound,
            ) && final(self)@ == old(self)@),
            count_named(old(self)@, name@) > 1 ==> (r == Err::<String, CalmarError>(
                CalmarError::AmbiguousName { e: count_named(old(self)@, name@) as usize },
            ) && final(self)@ == old(self)@),
            count_named(old(self)@, name@) == 1 ==> (r matches Ok(p) && p@ == old(self)@.filter(
                named(name@),
            )[0].path && final(self)@ == old(self)@.filter(not_named(name@))),
    {
        let (count, first) = self.find_named(&name);
        if count == 0 {
            return Err(CalmarError::NotFound);
        }
        if count > 1 {
            return Err(CalmarError::AmbiguousName { e: count });
        }
        let path = self.calendars[first].path();
        let empty = String::new();
        self.calendars = retain_where(&self.calendars, &name, &empty, false);
        Ok(path)
    }
}


proof fn lemma_activated_filter(s: Seq<ReferenceView>, n: Seq<char>)
    ensures
        activated(s, n).filter(is_active()) == activated(s.filter(named(n)), n),
    decreases s.len(),
{
    reveal(Seq::filter);
    if s.len() > 0 {
        lemma_activated_filter(s.drop_last(), n);
        assert(activated(s, n).drop_last() =~= activated(s.drop_last(), n));
        let a = activated(s, n);
        assert(a.len() > 0);
        if s.last().name == n {
            assert(activated(s.filter(named(n)), n) =~= activated(s.drop_last().filter(named(n)), n).push(
                a.last(),
            ));
        }
    } else {
        assert(activated(s, n) =~= s);
    }
}

/// After the one reference named `n` is made active, exactly one reference
/// is active, it is that reference (now marked active), and no other
/// reference is active.
pub proof fn lemma_set_active_single(s: Seq<ReferenceView>, n: Seq<char>)
    requires
        count_named(s, n) == 1,
    ensures
        count_active(activated(s, n)) == 1,
        activated(s, n).filter(is_active())[0] == (ReferenceView {
            active: true,
            ..s.filter(named(n))[0]
        }),
        forall|i: int|
            0 <= i < activated(s, n).len() && (#[trigger] activated(s, n)[i]).active ==> activated(
                s,
                n,
            )[i].name == n,
{
    lemma_activated_filter(s, n);
    s.lemma_filter_pred(named(n), 0);
}

} // verus!
