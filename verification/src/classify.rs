//! Classification of code-unit values against the fixed escape set, the
//! replacement strings, and the mathematical model of the whole
//! transformation: `escaped` (byte level), `escaped_chars` (character level),
//! the replacement position list `esc_positions`, and the length growth
//! `delta_units`.
use vstd::prelude::*;

verus! {

/// The fixed escape set: `"`, `&`, `'`, `<`, `>`, as code-unit values.
/// Equality against these five ASCII values is well-defined at every
/// code-unit width, so classification is stated once over `u32`.
pub open spec fn is_escape_value(v: u32) -> bool {
    ||| v == '"' as u32
    ||| v == '&' as u32
    ||| v == '\'' as u32
    ||| v == '<' as u32
    ||| v == '>' as u32
}

/// The fixed replacement string for an escape value, as bytes.
pub open spec fn replacement_bytes(v: u32) -> Seq<u8>
    recommends
        is_escape_value(v),
{
    if v == '"' as u32 {
        seq![38u8, 35u8, 51u8, 52u8, 59u8]
    } else if v == '&' as u32 {
        seq![38u8, 97u8, 109u8, 112u8, 59u8]
    } else if v == '\'' as u32 {
        seq![38u8, 35u8, 51u8, 57u8, 59u8]
    } else if v == '<' as u32 {
        seq![38u8, 108u8, 116u8, 59u8]
    } else {
        seq![38u8, 103u8, 116u8, 59u8]
    }
}

/// The fixed replacement string for an escape value, as characters.
pub open spec fn replacement_chars(v: u32) -> Seq<char>
    recommends
        is_escape_value(v),
{
    if v == '"' as u32 {
        seq!['&', '#', '3', '4', ';']
    } else if v == '&' as u32 {
        seq!['&', 'a', 'm', 'p', ';']
    } else if v == '\'' as u32 {
        seq!['&', '#', '3', '9', ';']
    } else if v == '<' as u32 {
        seq!['&', 'l', 't', ';']
    } else {
        seq!['&', 'g', 't', ';']
    }
}

/// What one byte of the input becomes in the output: its replacement string
/// if it is an escape byte, itself otherwise.
pub open spec fn byte_expansion(b: u8) -> Seq<u8> {
    if is_escape_value(b as u32) {
        replacement_bytes(b as u32)
    } else {
        seq![b]
    }
}

/// What one character of the input becomes in the output.
pub open spec fn char_expansion(c: char) -> Seq<char> {
    if is_escape_value(c as u32) {
        replacement_chars(c as u32)
    } else {
        seq![c]
    }
}

/// The escaped form of a byte sequence: every escape byte replaced by its
/// entity, every other byte kept.
pub open spec fn escaped(s: Seq<u8>) -> Seq<u8>
    decreases s.len(),
{
    if s.len() == 0 {
        Seq::empty()
    } else {
        escaped(s.drop_last()) + byte_expansion(s.last())
    }
}

/// The escaped form of a character sequence.
pub open spec fn escaped_chars(s: Seq<char>) -> Seq<char>
    decreases s.len(),
{
    if s.len() == 0 {
        Seq::empty()
    } else {
        char_expansion(s[0]) + escaped_chars(s.drop_first())
    }
}

/// Output-length growth contributed by one code-unit value: the length of
/// its replacement string minus one for the unit it replaces. The `<` and
/// `>` group grows by 3, the `"`, `'`, `&` group by 4, everything else by 0.
pub open spec fn growth(v: u32) -> int {
    if v == '<' as u32 || v == '>' as u32 {
        3
    } else if is_escape_value(v) {
        4
    } else {
        0
    }
}

/// Total output-length growth over a sequence of code-unit values.
pub open spec fn delta_units(vs: Seq<u32>) -> int
    decreases vs.len(),
{
    if vs.len() == 0 {
        0
    } else {
        delta_units(vs.drop_last()) + growth(vs.last())
    }
}

/// The positions that must be replaced, in strictly increasing order.
pub open spec fn esc_positions(vs: Seq<u32>) -> Seq<int>
    decreases vs.len(),
{
    if vs.len() == 0 {
        Seq::empty()
    } else if is_escape_value(vs.last()) {
        esc_positions(vs.drop_last()).push(vs.len() - 1)
    } else {
        esc_positions(vs.drop_last())
    }
}

/// Whether any unit of the sequence needs escaping.
pub open spec fn has_escape(vs: Seq<u32>) -> bool {
    exists|i: int| 0 <= i < vs.len() && is_escape_value(vs[i])
}

/// A byte sequence seen as a sequence of code-unit values.
pub open spec fn byte_vals(s: Seq<u8>) -> Seq<u32> {
    s.map_values(|b: u8| b as u32)
}

/// Extending a prefix by one byte extends its escaped form by that byte's
/// expansion.
pub proof fn lemma_escaped_take_succ(s: Seq<u8>, i: int)
    requires
        0 <= i < s.len(),
    ensures
        escaped(s.take(i + 1)) == escaped(s.take(i)) + byte_expansion(s[i]),
{
    let t = s.take(i + 1);
    assert(t.drop_last() =~= s.take(i));
    assert(t.last() == s[i]);
}

/// Escaping distributes over concatenation.
pub proof fn lemma_escaped_append(a: Seq<u8>, b: Seq<u8>)
    ensures
        escaped(a + b) == escaped(a) + escaped(b),
    decreases b.len(),
{
    if b.len() == 0 {
        assert(a + b =~= a);
        assert(escaped(a) + escaped(b) =~= escaped(a));
    } else {
        assert((a + b).drop_last() =~= a + b.drop_last());
        assert((a + b).last() == b.last());
        lemma_escaped_append(a, b.drop_last());
        assert(escaped(a) + (escaped(b.drop_last()) + byte_expansion(b.last())) =~= (escaped(a)
            + escaped(b.drop_last())) + byte_expansion(b.last()));
    }
}

/// Escaping a character sequence distributes over concatenation.
pub proof fn lemma_escaped_chars_append(a: Seq<char>, b: Seq<char>)
    ensures
        escaped_chars(a + b) == escaped_chars(a) + escaped_chars(b),
    decreases a.len(),
{
    if a.len() == 0 {
        assert(a + b =~= b);
        assert(escaped_chars(a) + escaped_chars(b) =~= escaped_chars(b));
    } else {
        assert((a + b).drop_first() =~= a.drop_first() + b);
        assert((a + b)[0] == a[0]);
        lemma_escaped_chars_append(a.drop_first(), b);
        assert(char_expansion(a[0]) + (escaped_chars(a.drop_first()) + escaped_chars(b)) =~= (
        char_expansion(a[0]) + escaped_chars(a.drop_first())) + escaped_chars(b));
    }
}

/// A sequence without escape bytes is its own escaped form.
pub proof fn lemma_escaped_no_escape(s: Seq<u8>)
    requires
        !has_escape(byte_vals(s)),
    ensures
        escaped(s) == s,
    decreases s.len(),
{
    if s.len() > 0 {
        assert(byte_vals(s)[s.len() - 1] == s.last() as u32);
        assert(byte_vals(s.drop_last()) =~= byte_vals(s).drop_last());
        assert(!has_escape(byte_vals(s.drop_last())));
        lemma_escaped_no_escape(s.drop_last());
        assert(escaped(s.drop_last()) + byte_expansion(s.last()) =~= s);
    }
}

/// The escaped length is the input length plus the total growth.
pub proof fn lemma_escaped_len(s: Seq<u8>)
    ensures
        escaped(s).len() == s.len() + delta_units(byte_vals(s)),
    decreases s.len(),
{
    if s.len() == 0 {
        assert(byte_vals(s).len() == 0);
    } else {
        assert(byte_vals(s.drop_last()) =~= byte_vals(s).drop_last());
        assert(byte_vals(s).last() == s.last() as u32);
        lemma_escaped_len(s.drop_last());
        assert(byte_expansion(s.last()).len() == 1 + growth(s.last() as u32));
    }
}

/// The total growth is non-negative and at most four units per element.
pub proof fn lemma_delta_bound(vs: Seq<u32>)
    ensures
        0 <= delta_units(vs) <= 4 * vs.len(),
    decreases vs.len(),
{
    if vs.len() > 0 {
        lemma_delta_bound(vs.drop_last());
    }
}

/// Extending a prefix by one unit adds its growth to the total growth and,
/// when it is an escape unit, its position to the position list.
pub proof fn lemma_prefix_step(vs: Seq<u32>, i: int)
    requires
        0 <= i < vs.len(),
    ensures
        delta_units(vs.take(i + 1)) == delta_units(vs.take(i)) + growth(vs[i]),
        esc_positions(vs.take(i + 1)) == if is_escape_value(vs[i]) {
            esc_positions(vs.take(i)).push(i)
        } else {
            esc_positions(vs.take(i))
        },
{
    let t = vs.take(i + 1);
    assert(t.drop_last() =~= vs.take(i));
    assert(t.last() == vs[i]);
}

/// A span without escape units adds nothing to the position list or the
/// total growth.
pub proof fn lemma_prefix_stall(vs: Seq<u32>, a: int, b: int)
    requires
        0 <= a <= b <= vs.len(),
        forall|p: int| a <= p < b ==> !is_escape_value(#[trigger] vs[p]),
    ensures
        esc_positions(vs.take(b)) == esc_positions(vs.take(a)),
        delta_units(vs.take(b)) == delta_units(vs.take(a)),
    decreases b - a,
{
    if a < b {
        lemma_prefix_stall(vs, a, b - 1);
        lemma_prefix_step(vs, b - 1);
    }
}

/// A span without escape bytes passes into the escaped form verbatim.
pub proof fn lemma_escaped_span(s: Seq<u8>, a: int, b: int)
    requires
        0 <= a <= b <= s.len(),
        forall|p: int| a <= p < b ==> !is_escape_value((#[trigger] s[p]) as u32),
    ensures
        escaped(s.take(b)) == escaped(s.take(a)) + s.subrange(a, b),
    decreases b - a,
{
    if a == b {
        assert(s.subrange(a, b) =~= Seq::empty());
        assert(escaped(s.take(a)) + s.subrange(a, b) =~= escaped(s.take(a)));
    } else {
        lemma_escaped_span(s, a, b - 1);
        lemma_escaped_take_succ(s, b - 1);
        assert(byte_expansion(s[b - 1]) == seq![s[b - 1]]);
        assert(escaped(s.take(a)) + s.subrange(a, b) =~= (escaped(s.take(a)) + s.subrange(
            a,
            b - 1,
        )) + seq![s[b - 1]]);
    }
}

/// The position list holds exactly the positions of escape units, each in
/// bounds, in strictly increasing order.
pub proof fn lemma_esc_positions_props(vs: Seq<u32>)
    ensures
        forall|k: int|
            0 <= k < esc_positions(vs).len() ==> 0 <= #[trigger] esc_positions(vs)[k] < vs.len()
                && is_escape_value(vs[esc_positions(vs)[k]]),
        forall|k1: int, k2: int|
            #![trigger esc_positions(vs)[k1], esc_positions(vs)[k2]]
            0 <= k1 < k2 < esc_positions(vs).len() ==> esc_positions(vs)[k1] < esc_positions(
                vs,
            )[k2],
        forall|p: int|
            0 <= p < vs.len() && is_escape_value(#[trigger] vs[p]) ==> esc_positions(vs).contains(
                p,
            ),
    decreases vs.len(),
{
    if vs.len() > 0 {
        let prev = vs.drop_last();
        let head = esc_positions(prev);
        let full = esc_positions(vs);
        lemma_esc_positions_props(prev);
        assert(forall|k: int| 0 <= k < prev.len() ==> #[trigger] prev[k] == vs[k]);
        assert(forall|k: int|
            0 <= k < head.len() ==> 0 <= #[trigger] full[k] < vs.len() && is_escape_value(
                vs[full[k]],
            )) by {
            assert forall|k: int| 0 <= k < head.len() implies 0 <= #[trigger] full[k] < vs.len()
                && is_escape_value(vs[full[k]]) by {
                assert(full[k] == head[k]);
                assert(is_escape_value(prev[head[k]]));
                assert(prev[head[k]] == vs[head[k]]);
            }
        }
        assert forall|p: int|
            0 <= p < vs.len() && is_escape_value(#[trigger] vs[p]) implies full.contains(p) by {
            if p == vs.len() - 1 {
                assert(is_escape_value(vs.last()));
                assert(full[full.len() - 1] == p);
            } else {
                assert(prev[p] == vs[p]);
                assert(is_escape_value(prev[p]));
                assert(head.contains(p));
                let j = choose|j: int| 0 <= j < head.len() && head[j] == p;
                assert(full[j] == p);
            }
        }
    }
}

/// O(1) classification of one byte against the escape set.
pub fn byte_needs_escape(b: u8) -> (r: bool)
    ensures
        r == is_escape_value(b as u32),
{
    b == 34 || b == 38 || b == 39 || b == 60 || b == 62
}

/// O(1) classification of one byte into a replacement-string index, with a
/// negative sentinel for bytes that need no escaping. The index orders the
/// five replacement strings as `"`, `&`, `'`, `<`, `>`.
pub fn replacement_index(b: u8) -> (r: i8)
    ensures
        r == -1 <==> !is_escape_value(b as u32),
        is_escape_value(b as u32) ==> {
            &&& (r == 0 <==> b == '"' as u8)
            &&& (r == 1 <==> b == '&' as u8)
            &&& (r == 2 <==> b == '\'' as u8)
            &&& (r == 3 <==> b == '<' as u8)
            &&& (r == 4 <==> b == '>' as u8)
        },
{
    if b == 34 {
        0
    } else if b == 38 {
        1
    } else if b == 39 {
        2
    } else if b == 60 {
        3
    } else if b == 62 {
        4
    } else {
        -1
    }
}

} // verus!
