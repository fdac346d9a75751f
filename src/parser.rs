use vstd::prelude::*;
use vstd::string::StringExecFns;

verus! {

/// The extended grapheme clusters of a string, in order.
pub uninterp spec fn graphemes_of(s: Seq<char>) -> Seq<Seq<char>>;

/// Relies on `UnicodeSegmentation::graphemes` (extended clusters): the
/// string cut into its grapheme clusters, in order.
#[verifier::external_body]
fn graphemes(s: &str) -> (r: Vec<String>)
    ensures
        r@.map_values(|g: String| g@) == graphemes_of(s@),
{
    unicode_segmentation::UnicodeSegmentation::graphemes(s, true).map(|g| g.to_string()).collect()
}

pub open spec fn count_quotes(s: Seq<char>) -> nat
    decreases s.len(),
{
    if s.len() == 0 {
        0
    } else {
        count_quotes(s.drop_last()) + (if s.last() == '"' {
            1nat
        } else {
            0nat
        })
    }
}

/// Whether the quotation marks of a command line pair up: there is an even
/// number of them.
pub fn check_quotes(input: &str) -> (r: bool)
    ensures
        r == (count_quotes(input@) % 2 == 0),
{
    let n = input.unicode_len();
    let mut count: usize = 0;
    let mut i: usize = 0;
    while i < n
        invariant
            n == input@.len(),
            i <= n,
            count == count_quotes(input@.take(i as int)),
            count <= i,
        decreases n - i,
    {
        assert(input@.take(i + 1).drop_last() =~= input@.take(i as int));
        if input.get_char(i) == '"' {
            count = count + 1;
        }
        i = i + 1;
    }
    assert(input@.take(n as int) =~= input@);
    count % 2 == 0
}

/// Where the split of a command line stands after some graphemes: the
/// pieces so far, the piece being read, and whether it is a word or a
/// quotation.
pub ghost struct SplitState {
    pub pieces: Seq<Seq<char>>,
    pub current: Seq<char>,
    pub in_word: bool,
    pub in_quote: bool,
}

pub open spec fn start_state() -> SplitState {
    SplitState { pieces: Seq::empty(), current: Seq::empty(), in_word: false, in_quote: false }
}

/// One grapheme read: a quotation runs from a quotation mark to the next
/// one, whatever it holds; outside quotations, spaces and quotation marks
/// end words.
pub open spec fn split_step(st: SplitState, g: Seq<char>) -> SplitState {
    if st.in_quote {
        if g == "\""@ {
            SplitState { pieces: st.pieces.push(st.current), current: Seq::empty(), in_quote: false, ..st }
        } else {
            SplitState { current: st.current + g, ..st }
        }
    } else if g == "\""@ || g == " "@ {
        let pieces = if st.in_word {
            st.pieces.push(st.current)
        } else {
            st.pieces
        };
        SplitState { pieces, current: Seq::empty(), in_word: false, in_quote: g == "\""@ }
    } else {
        SplitState { current: st.current + g, in_word: true, ..st }
    }
}

pub open spec fn split_all(gs: Seq<Seq<char>>) -> SplitState
    decreases gs.len(),
{
    if gs.len() == 0 {
        start_state()
    } else {
        split_step(split_all(gs.drop_last()), gs.last())
    }
}

/// The pieces of a command line: its quotations, without their quotation
/// marks, and the words between them, in order.
pub open spec fn split_line(gs: Seq<Seq<char>>) -> Seq<Seq<char>> {
    let st = split_all(gs);
    if st.in_word {
        st.pieces.push(st.current)
    } else {
        st.pieces
    }
}

/// Splits a command line into its words and quoted pieces, going by
/// grapheme clusters.
pub fn handle_quotes(input: String) -> (r: Vec<String>)
    ensures
        r@.map_values(|p: String| p@) == split_line(graphemes_of(input@)),
{
    let gs = graphemes(input.as_str());
    let ghost gv = gs@.map_values(|g: String| g@);
    let quote = String::from_str("\"");
    let space = String::from_str(" ");
    proof {
        reveal_strlit("\"");
        reveal_strlit(" ");
    }
    let mut pieces: Vec<String> = Vec::new();
    let mut current = String::new();
    let mut in_word = false;
    let mut in_quote = false;
    let mut i: usize = 0;
    assert(gv.take(0) =~= Seq::<Seq<char>>::empty());
    assert(pieces@.map_values(|p: String| p@) =~= Seq::<Seq<char>>::empty());
    while i < gs.len()
        invariant
            i <= gs.len(),
            gv == gs@.map_values(|g: String| g@),
            gv == graphemes_of(input@),
            quote@ == "\""@,
            space@ == " "@,
            ({
                let st = split_all(gv.take(i as int));
                &&& pieces@.map_values(|p: String| p@) == st.pieces
                &&& current@ == st.current
                &&& in_word == st.in_word
                &&& in_quote == st.in_quote
            }),
        decreases gs.len() - i,
    {
        let g = &gs[i];
        assert(gv.take(i + 1).drop_last() =~= gv.take(i as int));
        assert(gv.take(i + 1).last() == g@);
        let ghost before = pieces@;
        if in_quote {
            if *g == quote {
                pieces.push(current);
                current = String::new();
                in_quote = false;
                assert(pieces@.map_values(|p: String| p@) =~= before.map_values(|p: String| p@).push(
                    split_all(gv.take(i as int)).current,
                ));
            } else {
                current.append(g.as_str());
            }
        } else if *g == quote || *g == space {
            if in_word {
                pieces.push(current);
                assert(pieces@.map_values(|p: String| p@) =~= before.map_values(|p: String| p@).push(
                    split_all(gv.take(i as int)).current,
                ));
            }
            current = String::new();
            in_word = false;
            in_quote = *g == quote;
        } else {
            current.append(g.as_str());
            in_word = true;
        }
        i = i + 1;
    }
    assert(gv.take(gs.len() as int) =~= gv);
    if in_word {
        let ghost before = pieces@;
        pieces.push(current);
        assert(pieces@.map_values(|p: String| p@) =~= before.map_values(|p: String| p@).push(
            split_all(gv).current,
        ));
    }
    pieces
}

} // verus!
