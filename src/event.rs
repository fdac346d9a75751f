use vstd::prelude::*;

verus! {

/// The largest distance from the epoch, in seconds, of a timestamp that the
/// library handles (about 278,000 years either way, past the range of the
/// calendar types that events are read from).
pub const TIME_LIMIT: i64 = 8796093022208;

pub open spec fn valid_time(t: int) -> bool {
    -TIME_LIMIT <= t <= TIME_LIMIT
}

/// An event definition, or one occurrence of it, as a value.
pub ghost struct EventView {
    pub name: Seq<char>,
    pub start: int,
    pub end: int,
    /// Seconds between the starts of successive occurrences; zero for an
    /// event that does not recur.
    pub repeat: int,
    pub priority: u8,
    pub difficulty: u8,
    /// Starts of cancelled occurrences.
    pub exceptions: Seq<int>,
}

impl EventView {
    /// The event's times lie in the handled range and its interval is not
    /// negative.
    pub open spec fn wf(self) -> bool {
        valid_time(self.start) && valid_time(self.end) && self.repeat >= 0
    }

    pub open spec fn duration(self) -> int {
        self.end - self.start
    }

    pub open spec fn is_happening_on(self, t: int) -> bool {
        self.start <= t < self.end
    }
}

/// Whether `a` comes before `b`, or equals it, in lexicographic order of
/// characters (the order of `String`'s comparison).
pub open spec fn name_le(a: Seq<char>, b: Seq<char>) -> bool
    decreases a.len(),
{
    if a.len() == 0 {
        true
    } else if b.len() == 0 {
        false
    } else if a[0] != b[0] {
        a[0] < b[0]
    } else {
        name_le(a.skip(1), b.skip(1))
    }
}

/// The presentation order of events: by start, then by name.
pub open spec fn event_le(a: EventView, b: EventView) -> bool {
    a.start < b.start || (a.start == b.start && name_le(a.name, b.name))
}

pub proof fn lemma_name_le_total(a: Seq<char>, b: Seq<char>)
    ensures
        name_le(a, b) || name_le(b, a),
    decreases a.len(),
{
    if a.len() > 0 && b.len() > 0 && a[0] == b[0] {
        lemma_name_le_total(a.skip(1), b.skip(1));
    }
}

pub proof fn lemma_event_le_total(a: EventView, b: EventView)
    ensures
        event_le(a, b) || event_le(b, a),
{
    lemma_name_le_total(a.name, b.name);
}

/// Something planned: a name, a start and an end, and possibly an interval
/// at which it recurs, with cancelled occurrences.
#[derive(Clone, Debug)]
pub struct Event {
    name: String,
    start: i64,
    end: i64,
    repeat: i64,
    priority: u8,
    difficulty: u8,
    exceptions: Vec<i64>,
}

pub open spec fn times_view(v: Seq<i64>) -> Seq<int> {
    v.map_values(|t: i64| t as int)
}

impl View for Event {
    type V = EventView;

    closed spec fn view(&self) -> EventView {
        EventView {
            name: self.name@,
            start: self.start as int,
            end: self.end as int,
            repeat: self.repeat as int,
            priority: self.priority,
            difficulty: self.difficulty,
            exceptions: times_view(self.exceptions@),
        }
    }
}

/// A copy of a list of timestamps.
fn copy_times(v: &Vec<i64>) -> (r: Vec<i64>)
    ensures
        r@ == v@,
{
    let mut out: Vec<i64> = Vec::new();
    let mut i: usize = 0;
    while i < v.len()
        invariant
            i <= v.len(),
            out@ == v@.take(i as int),
        decreases v.len() - i,
    {
        out.push(v[i]);
        assert(out@ =~= v@.take(i + 1));
        i = i + 1;
    }
    assert(v@.take(v.len() as int) =~= v@);
    out
}

/// Whether `t` is in the list.
pub fn contains_time(v: &Vec<i64>, t: i64) -> (r: bool)
    ensures
        r == times_view(v@).contains(t as int),
{
    let mut i: usize = 0;
    while i < v.len()
        invariant
            i <= v.len(),
            forall|j: int| 0 <= j < i ==> v@[j] != t,
        decreases v.len() - i,
    {
        if v[i] == t {
            assert(times_view(v@)[i as int] == t as int);
            return true;
        }
        i = i + 1;
    }
    assert(!times_view(v@).contains(t as int)) by {
        if times_view(v@).contains(t as int) {
            let j = choose|j: int| 0 <= j < times_view(v@).len() && times_view(v@)[j] == t as int;
            assert(v@[j] == t);
        }
    }
    false
}

/// Whether name `a` comes before `b`, or equals it.
pub fn name_le_exec(a: &String, b: &String) -> (r: bool)
    ensures
        r == name_le(a@, b@),
{
    let sa = a.as_str();
    let sb = b.as_str();
    let la = sa.unicode_len();
    let lb = sb.unicode_len();
    let mut i: usize = 0;
    assert(a@.skip(0) =~= a@);
    assert(b@.skip(0) =~= b@);
    while i < la && i < lb
        invariant
            la == a@.len(),
            lb == b@.len(),
            sa@ == a@,
            sb@ == b@,
            i <= la,
            i <= lb,
            name_le(a@, b@) == name_le(a@.skip(i as int), b@.skip(i as int)),
        decreases la - i,
    {
        let ca = sa.get_char(i);
        let cb = sb.get_char(i);
        assert(a@.skip(i as int)[0] == ca);
        assert(b@.skip(i as int)[0] == cb);
        if ca != cb {
            return ca < cb;
        }
        assert(a@.skip(i as int).skip(1) =~= a@.skip(i + 1));
        assert(b@.skip(i as int).skip(1) =~= b@.skip(i + 1));
        i = i + 1;
    }
    i == la
}

/// Whether `a` comes before `b`, or with it, in the presentation order.
pub fn event_le_exec(a: &Event, b: &Event) -> (r: bool)
    ensures
        r == event_le(a@, b@),
{
    a.start < b.start || (a.start == b.start && name_le_exec(&a.name, &b.name))
}

/// The orders in which a calendar's events can be sorted.
#[derive(Clone, Copy, Debug, PartialEq, Eq, Structural)]
pub enum SortKey {
    /// By start, then by name.
    Standard,
    Name,
    Start,
    End,
    Priority,
    Difficulty,
}

/// Whether `a` comes before `b`, or with it, in the order `k`.
pub open spec fn key_le(k: SortKey, a: EventView, b: EventView) -> bool {
    match k {
        SortKey::Standard => event_le(a, b),
        SortKey::Name => name_le(a.name, b.name),
        SortKey::Start => a.start <= b.start,
        SortKey::End => a.end <= b.end,
        SortKey::Priority => a.priority <= b.priority,
        SortKey::Difficulty => a.difficulty <= b.difficulty,
    }
}

pub proof fn lemma_key_le_total(k: SortKey, a: EventView, b: EventView)
    ensures
        key_le(k, a, b) || key_le(k, b, a),
{
    lemma_event_le_total(a, b);
    lemma_name_le_total(a.name, b.name);
}

/// Whether `a` comes before `b`, or with it, in the order `k`.
pub fn key_le_exec(k: SortKey, a: &Event, b: &Event) -> (r: bool)
    ensures
        r == key_le(k, a@, b@),
{
    match k {
        SortKey::Standard => event_le_exec(a, b),
        SortKey::Name => name_le_exec(&a.name, &b.name),
        SortKey::Start => a.start <= b.start,
        SortKey::End => a.end <= b.end,
        SortKey::Priority => a.priority <= b.priority,
        SortKey::Difficulty => a.difficulty <= b.difficulty,
    }
}

impl Event {
    pub fn new(
        name: String,
        start: i64,
        end: i64,
        repeat: i64,
        priority: u8,
        difficulty: u8,
        exceptions: Vec<i64>,
    ) -> (r: Self)
        ensures
            r@ == (EventView {
                name: name@,
                start: start as int,
                end: end as int,
                repeat: repeat as int,
                priority,
                difficulty,
                exceptions: times_view(exceptions@),
            }),
    {
        Event { name, start, end, repeat, priority, difficulty, exceptions }
    }

    /// A copy whose view is the same.
    pub fn copy(&self) -> (r: Self)
        ensures
            r@ == self@,
    {
        Event {
            name: self.name.clone(),
            start: self.start,
            end: self.end,
            repeat: self.repeat,
            priority: self.priority,
            difficulty: self.difficulty,
            exceptions: copy_times(&self.exceptions),
        }
    }

    /// The same event moved so that it starts at `start`, with its duration
    /// kept.
    pub fn moved_to(&self, start: i64) -> (r: Self)
        requires
            self@.wf(),
            -2 * TIME_LIMIT <= start <= 2 * TIME_LIMIT,
        ensures
            r@ == (EventView { start: start as int, end: start + self@.duration(), ..self@ }),
    {
        Event {
            name: self.name.clone(),
            start,
            end: start + (self.end - self.start),
            repeat: self.repeat,
            priority: self.priority,
            difficulty: self.difficulty,
            exceptions: copy_times(&self.exceptions),
        }
    }

    pub fn name(&self) -> (r: String)
        ensures
            r@ == self@.name,
    {
        self.name.clone()
    }

    pub fn priority(&self) -> (r: u8)
        ensures
            r == self@.priority,
    {
        self.priority
    }

    /// Whether an occurrence is under way at `t`: it has started and not
    /// yet ended.
    pub fn is_happening_on(&self, t: i64) -> (r: bool)
        ensures
            r == self@.is_happening_on(t as int),
    {
        self.start <= t && t < self.end
    }

    pub fn start(&self) -> (r: i64)
        ensures
            r == self@.start,
    {
        self.start
    }

    pub fn end(&self) -> (r: i64)
        ensures
            r == self@.end,
    {
        self.end
    }

    pub fn repeat(&self) -> (r: i64)
        ensures
            r == self@.repeat,
    {
        self.repeat
    }

    pub fn difficulty(&self) -> (r: u8)
        ensures
            r == self@.difficulty,
    {
        self.difficulty
    }

    pub fn exceptions(&self) -> (r: &Vec<i64>)
        ensures
            times_view(r@) == self@.exceptions,
    {
        &self.exceptions
    }

    pub fn exceptions_mut(&mut self) -> (r: &mut Vec<i64>)
        ensures
            times_view(r@) == old(self)@.exceptions,
            final(self)@ == (EventView { exceptions: times_view(final(r)@), ..old(self)@ }),
    {
        &mut self.exceptions
    }

    pub fn set_name(&mut self, name: &String)
        ensures
            final(self)@ == (EventView { name: name@, ..old(self)@ }),
    {
        self.name = name.clone();
    }

    pub fn set_start(&mut self, new_start: i64)
        ensures
            final(self)@ == (EventView { start: new_start as int, ..old(self)@ }),
    {
        self.start = new_start;
    }

    pub fn set_end(&mut self, new_end: i64)
        ensures
            final(self)@ == (EventView { end: new_end as int, ..old(self)@ }),
    {
        self.end = new_end;
    }

    pub fn set_repeat(&mut self, d: i64)
        ensures
            final(self)@ == (EventView { repeat: d as int, ..old(self)@ }),
    {
        self.repeat = d;
    }

    pub fn set_priority(&mut self, p: u8)
        ensures
            final(self)@ == (EventView { priority: p, ..old(self)@ }),
    {
        self.priority = p;
    }

    pub fn set_difficulty(&mut self, d: u8)
        ensures
            final(self)@ == (EventView { difficulty: d, ..old(self)@ }),
    {
        self.difficulty = d;
    }

    /// Seconds from start to end.
    pub fn duration(&self) -> (r: i64)
        requires
            self@.wf(),
        ensures
            r == self@.duration(),
    {
        self.end - self.start
    }
}

} // verus!
