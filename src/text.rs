use vstd::prelude::*;
use vstd::string::StrSliceExecFns;
use vstd::string::StringExecFns;

verus! {

/// Whether two string slices hold the same characters.
pub fn str_eq(a: &str, b: &str) -> (r: bool)
    ensures
        r == (a@ == b@),
{
    let x = a.to_owned();
    let y = b.to_owned();
    x == y
}

/// `n` space characters.
pub open spec fn spaces(n: nat) -> Seq<char> {
    Seq::new(n, |i: int| ' ')
}

/// `candidate` brought to exactly `n` characters: cut short when longer,
/// padded on the right with spaces when shorter.
pub open spec fn normalized(candidate: Seq<char>, n: nat) -> Seq<char> {
    if candidate.len() >= n {
        candidate.take(n as int)
    } else {
        candidate + spaces((n - candidate.len()) as nat)
    }
}

/// Brings `candidate` to exactly `len` characters: truncated when longer,
/// right-padded with spaces when shorter.
pub fn normalize_length(candidate: &str, len: usize) -> (r: String)
    ensures
        r@ == normalized(candidate@, len as nat),
        r@.len() == len,
{
    let cl = candidate.unicode_len();
    if cl >= len {
        candidate.substring_char(0, len).to_owned()
    } else {
        proof {
            reveal_strlit(" ");
        }
        let mut r = candidate.to_owned();
        let mut k: usize = cl;
        while k < len
            invariant
                cl <= k <= len,
                cl == candidate@.len(),
                r@ == candidate@ + spaces((k - cl) as nat),
            decreases len - k,
        {
            proof {
                reveal_strlit(" ");
            }
            r.append(" ");
            k = k + 1;
            proof {
                assert(r@ =~= candidate@ + spaces((k - cl) as nat));
            }
        }
        r
    }
}

/// `s` between double quotes.
pub open spec fn quoted(s: Seq<char>) -> Seq<char> {
    seq!['"'] + s + seq!['"']
}

/// Wraps `s` in double quotes.
pub fn quote(s: &str) -> (r: String)
    ensures
        r@ == quoted(s@),
{
    proof {
        reveal_strlit("\"");
    }
    let mut r = String::from_str("\"");
    r.append(s);
    r.append("\"");
    proof {
        assert(r@ =~= quoted(s@));
    }
    r
}

/// `s` without its surrounding delimiters: one leading and one trailing
/// double quote, each where present. Inner quotes stay.
pub open spec fn without_quotes(s: Seq<char>) -> Seq<char> {
    let from: int = if s.len() > 0 && s[0] == '"' {
        1
    } else {
        0
    };
    let t = s.skip(from);
    if t.len() > 0 && t.last() == '"' {
        t.drop_last()
    } else {
        t
    }
}

/// Removes one leading and one trailing double quote from `s`, where present.
pub fn strip_quotes(s: &str) -> (r: String)
    ensures
        r@ == without_quotes(s@),
{
    let n = s.unicode_len();
    let from: usize = if n > 0 && s.get_char(0) == '"' {
        1
    } else {
        0
    };
    let to: usize = if n > from && s.get_char(n - 1) == '"' {
        n - 1
    } else {
        n
    };
    let r = s.substring_char(from, to).to_owned();
    proof {
        assert(r@ =~= without_quotes(s@));
    }
    r
}

/// A positional replacement: `deleted_length` characters at `position` give
/// way to `inserted_text`.
#[derive(Debug)]
pub struct Edit {
    pub position: usize,
    pub deleted_length: usize,
    pub inserted_text: String,
}

/// An edit as position, deleted length and inserted characters.
pub open spec fn edit_view(e: Edit) -> (int, int, Seq<char>) {
    (e.position as int, e.deleted_length as int, e.inserted_text@)
}

/// The edits, as `edit_view` gives them.
pub open spec fn edits_view(v: Seq<Edit>) -> Seq<(int, int, Seq<char>)> {
    v.map_values(|e: Edit| edit_view(e))
}

/// `text` with one edit applied.
pub open spec fn edited(text: Seq<char>, e: (int, int, Seq<char>)) -> Seq<char> {
    text.take(e.0) + e.2 + text.skip(e.0 + e.1)
}

/// Applies one edit to `text`.
pub fn apply_edit(text: &str, edit: &Edit) -> (r: String)
    requires
        edit.position + edit.deleted_length <= text@.len(),
    ensures
        r@ == edited(text@, edit_view(*edit)),
{
    let n = text.unicode_len();
    let end = edit.position + edit.deleted_length;
    let mut r = text.substring_char(0, edit.position).to_owned();
    r.append(edit.inserted_text.as_str());
    r.append(text.substring_char(end, n));
    proof {
        assert(r@ =~= edited(text@, edit_view(*edit)));
    }
    r
}

/// The edits lie within a text of `len` characters, in ascending order,
/// none overlapping the next.
pub open spec fn edits_well_formed(len: int, edits: Seq<(int, int, Seq<char>)>) -> bool {
    &&& forall|k: int|
        0 <= k < edits.len() ==> 0 <= #[trigger] edits[k].0 && 0 <= edits[k].1 && edits[k].0
            + edits[k].1 <= len
    &&& forall|k: int|
        0 <= k < edits.len() - 1 ==> #[trigger] edits[k].0 + edits[k].1 <= edits[k + 1].0
}

/// `text` from `from` on, with the edits applied, each against the positions
/// of `text` itself.
pub open spec fn spliced(text: Seq<char>, edits: Seq<(int, int, Seq<char>)>, from: int) -> Seq<char>
    decreases edits.len(),
{
    if edits.len() == 0 {
        text.subrange(from, text.len() as int)
    } else {
        let e = edits[0];
        text.subrange(from, e.0) + e.2 + spliced(text, edits.drop_first(), e.0 + e.1)
    }
}

/// Applies all edits, each positioned against the original `text`, into a
/// fresh buffer from left to right.
pub fn apply_edits(text: &str, edits: &Vec<Edit>) -> (r: String)
    requires
        edits_well_formed(text@.len() as int, edits_view(edits@)),
    ensures
        r@ == spliced(text@, edits_view(edits@), 0),
{
    let ghost ev = edits_view(edits@);
    let n = text.unicode_len();
    let mut r = String::new();
    let mut cursor: usize = 0;
    let mut k: usize = 0;
    proof {
        assert(ev.skip(0) =~= ev);
        assert(r@ + spliced(text@, ev, 0) =~= spliced(text@, ev, 0));
    }
    while k < edits.len()
        invariant
            k <= edits.len(),
            n == text@.len(),
            ev == edits_view(edits@),
            edits_well_formed(n as int, ev),
            cursor <= n,
            k < edits.len() ==> cursor <= ev[k as int].0,
            r@ + spliced(text@, ev.skip(k as int), cursor as int) == spliced(text@, ev, 0),
        decreases edits.len() - k,
    {
        let e = &edits[k];
        proof {
            assert(ev[k as int] == edit_view(*e));
            assert(ev.skip(k as int).drop_first() =~= ev.skip(k + 1));
            assert(ev.skip(k as int)[0] == ev[k as int]);
        }
        let ghost old_r = r@;
        r.append(text.substring_char(cursor, e.position));
        r.append(e.inserted_text.as_str());
        let ghost rest = spliced(text@, ev.skip(k + 1), e.position + e.deleted_length);
        proof {
            assert(r@ + rest =~= old_r + (text@.subrange(cursor as int, e.position as int)
                + e.inserted_text@ + rest));
        }
        cursor = e.position + e.deleted_length;
        k = k + 1;
    }
    r.append(text.substring_char(cursor, n));
    proof {
        assert(ev.skip(k as int).len() == 0);
    }
    r
}

/// `needle` stands in `hay` at offset `o`.
pub open spec fn occurs_at(hay: Seq<char>, needle: Seq<char>, o: int) -> bool {
    0 <= o && o + needle.len() <= hay.len() && hay.subrange(o, o + needle.len()) == needle
}

/// `needle` stands somewhere in `hay`.
pub open spec fn occurs_in(hay: Seq<char>, needle: Seq<char>) -> bool {
    exists|o: int| #[trigger] occurs_at(hay, needle, o)
}

/// A stretch of `text` that no edit touches reappears whole in the spliced
/// result.
pub proof fn lemma_spliced_keeps(
    text: Seq<char>,
    edits: Seq<(int, int, Seq<char>)>,
    from: int,
    a: int,
    b: int,
)
    requires
        edits_well_formed(text.len() as int, edits),
        0 <= from <= a <= b <= text.len(),
        edits.len() > 0 ==> from <= edits[0].0,
        forall|t: int|
            0 <= t < edits.len() ==> #[trigger] edits[t].0 + edits[t].1 <= a || b <= edits[t].0,
    ensures
        occurs_in(spliced(text, edits, from), text.subrange(a, b)),
    decreases edits.len(),
{
    let out = spliced(text, edits, from);
    if edits.len() == 0 {
        let o = a - from;
        assert(out.subrange(o, o + (b - a)) =~= text.subrange(a, b));
        assert(occurs_at(out, text.subrange(a, b), o));
    } else {
        let e = edits[0];
        let head = text.subrange(from, e.0);
        if b <= e.0 {
            let o = a - from;
            assert(out.subrange(o, o + (b - a)) =~= text.subrange(a, b));
            assert(occurs_at(out, text.subrange(a, b), o));
        } else {
            assert(e.0 + e.1 <= a);
            let rest = edits.drop_first();
            assert(edits_well_formed(text.len() as int, rest)) by {
                assert forall|t: int| 0 <= t < rest.len() - 1 implies #[trigger] rest[t].0
                    + rest[t].1 <= rest[t + 1].0 by {
                    assert(rest[t] == edits[t + 1] && rest[t + 1] == edits[t + 2]);
                }
            }
            if rest.len() > 0 {
                assert(rest[0] == edits[1]);
            }
            lemma_spliced_keeps(text, rest, e.0 + e.1, a, b);
            let tail = spliced(text, rest, e.0 + e.1);
            let o2 = choose|o: int| #[trigger] occurs_at(tail, text.subrange(a, b), o);
            let o = head.len() + e.2.len() + o2;
            assert(out == head + e.2 + tail);
            assert(out.subrange(o, o + (b - a)) =~= tail.subrange(o2, o2 + (b - a)));
            assert(occurs_at(out, text.subrange(a, b), o));
        }
    }
}

} // verus!
