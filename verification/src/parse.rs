//! The line parser: breaks a raw argument of the shape
//! `path:line:col: matched text` into its colon-delimited fragments,
//! reattaches a drive-letter prefix to the path when one is detected, and
//! recovers the `(path, line)` pair.

use vstd::prelude::*;
use vstd::string::*;

verus! {

/// The fragments of `s` split on `':'`, in order. Splitting the empty
/// sequence yields one empty fragment, and every `':'` opens a new fragment,
/// exactly as `str::split(':')` behaves.
pub open spec fn split_frags(s: Seq<char>) -> Seq<Seq<char>>
    decreases s.len(),
{
    if s.len() == 0 {
        seq![Seq::<char>::empty()]
    } else if s.last() == ':' {
        split_frags(s.drop_last()).push(Seq::<char>::empty())
    } else {
        let rest = split_frags(s.drop_last());
        rest.update(rest.len() - 1, rest.last().push(s.last()))
    }
}

/// Splitting always yields at least one fragment.
pub proof fn lemma_split_frags_len(s: Seq<char>)
    ensures
        split_frags(s).len() >= 1,
    decreases s.len(),
{
    if s.len() > 0 {
        lemma_split_frags_len(s.drop_last());
    }
}

/// The views of a vector of owned fragments.
pub open spec fn frag_views(ps: Seq<String>) -> Seq<Seq<char>> {
    ps.map_values(|p: String| p@)
}

/// Splits `s` on `':'` into owned fragments.
pub fn split_colon(s: &str) -> (pieces: Vec<String>)
    ensures
        frag_views(pieces@) == split_frags(s@),
{
    let len: usize = s.unicode_len();
    let mut pieces: Vec<String> = Vec::new();
    let mut start: usize = 0;
    let mut i: usize = 0;
    proof {
        assert(s@.take(0) =~= Seq::<char>::empty());
        assert(s@.subrange(0, 0) =~= Seq::<char>::empty());
        assert(frag_views(pieces@).push(s@.subrange(0, 0)) =~= split_frags(s@.take(0)));
    }
    while i < len
        invariant
            start <= i <= len,
            len == s@.len(),
            frag_views(pieces@).push(s@.subrange(start as int, i as int)) == split_frags(
                s@.take(i as int),
            ),
        decreases len - i,
    {
        proof {
            assert(s@.take(i + 1).drop_last() =~= s@.take(i as int));
        }
        let c = s.get_char(i);
        if c == ':' {
            let piece = s.substring_char(start, i).to_owned();
            proof {
                lemma_split_frags_len(s@.take(i as int));
                assert(frag_views(pieces@.push(piece)).push(Seq::<char>::empty()) =~= frag_views(
                    pieces@,
                ).push(s@.subrange(start as int, i as int)).push(Seq::<char>::empty()));
            }
            pieces.push(piece);
            start = i + 1;
            proof {
                assert(s@.subrange(start as int, i + 1) =~= Seq::<char>::empty());
            }
        } else {
            proof {
                let old_split = split_frags(s@.take(i as int));
                lemma_split_frags_len(s@.take(i as int));
                assert(old_split.last() == s@.subrange(start as int, i as int));
                assert(s@.subrange(start as int, i + 1) =~= s@.subrange(
                    start as int,
                    i as int,
                ).push(s@[i as int]));
                assert(frag_views(pieces@).push(s@.subrange(start as int, i + 1)) =~= old_split
                    .update(old_split.len() - 1, old_split.last().push(s@[i as int])));
            }
        }
        i = i + 1;
    }
    proof {
        assert(s@.take(len as int) =~= s@);
    }
    let piece = s.substring_char(start, len).to_owned();
    proof {
        assert(frag_views(pieces@.push(piece)) =~= frag_views(pieces@).push(s@.subrange(
            start as int,
            len as int,
        )));
    }
    pieces.push(piece);
    pieces
}

/// Fragments rejoined with `':'` between them.
pub open spec fn join_frags(ps: Seq<Seq<char>>) -> Seq<char>
    decreases ps.len(),
{
    if ps.len() == 0 {
        Seq::<char>::empty()
    } else if ps.len() == 1 {
        ps[0]
    } else {
        join_frags(ps.drop_last()) + seq![':'] + ps.last()
    }
}

/// Joins the first `n` fragments of `pieces` with `':'` between them.
pub fn join_pieces(pieces: &Vec<String>, n: usize) -> (r: String)
    requires
        1 <= n <= pieces@.len(),
    ensures
        r@ == join_frags(frag_views(pieces@).take(n as int)),
{
    let mut r: String = pieces[0].clone();
    let mut i: usize = 1;
    proof {
        assert(join_frags(frag_views(pieces@).take(1)) == frag_views(pieces@).take(1)[0]);
    }
    while i < n
        invariant
            1 <= i <= n <= pieces@.len(),
            r@ == join_frags(frag_views(pieces@).take(i as int)),
        decreases n - i,
    {
        proof {
            reveal_strlit(":");
            assert(":"@ =~= seq![':']);
            assert(frag_views(pieces@).take(i + 1).drop_last() =~= frag_views(pieces@).take(
                i as int,
            ));
            assert(frag_views(pieces@).take(i + 1).last() == pieces@[i as int]@);
        }
        r.append(":");
        r.append(pieces[i].as_str());
        i = i + 1;
    }
    r
}

/// The split fragments begin with a drive-letter path prefix: the first
/// fragment is a single one-byte character and the second opens with a
/// backslash path separator.
pub open spec fn drive_prefixed(ps: Seq<Seq<char>>) -> bool
    recommends
        ps.len() >= 2,
{
    &&& ps[0].len() == 1
    &&& (ps[0][0] as int) < 128
    &&& ps[1].len() >= 1
    &&& ps[1][0] == '\\'
}

/// How many leading fragments make up the file path.
pub open spec fn path_frag_count(ps: Seq<Seq<char>>) -> int
    recommends
        ps.len() >= 2,
{
    if drive_prefixed(ps) {
        2
    } else {
        1
    }
}

/// Checks the drive-letter heuristic on the split fragments.
fn drive_prefix_detected(pieces: &Vec<String>) -> (b: bool)
    requires
        pieces@.len() >= 2,
    ensures
        b == drive_prefixed(frag_views(pieces@)),
{
    let p0 = pieces[0].as_str();
    if p0.unicode_len() != 1 {
        return false;
    }
    if p0.get_char(0) as u32 >= 128 {
        return false;
    }
    let p1 = pieces[1].as_str();
    p1.unicode_len() >= 1 && p1.get_char(0) == '\\'
}

/// `c` is an ASCII decimal digit.
pub open spec fn is_dec_digit(c: char) -> bool {
    48 <= c as int <= 57
}

/// The numeric value of a decimal digit.
pub open spec fn digit_val(c: char) -> int {
    c as int - 48
}

/// Every character of `s` is a decimal digit.
pub open spec fn all_digits(s: Seq<char>) -> bool {
    forall|i: int| 0 <= i < s.len() ==> is_dec_digit(#[trigger] s[i])
}

/// The value of a sequence of decimal digits, most significant first.
pub open spec fn digits_val(s: Seq<char>) -> int
    decreases s.len(),
{
    if s.len() == 0 {
        0
    } else {
        digits_val(s.drop_last()) * 10 + digit_val(s.last())
    }
}

/// The digits of a numeral: a single leading `'+'` sign is accepted and
/// carries no value, as `usize::from_str` accepts it.
pub open spec fn numeral_digits(s: Seq<char>) -> Seq<char> {
    if s.len() > 0 && s[0] == '+' {
        s.drop_first()
    } else {
        s
    }
}

/// `s` is a numeral that denotes a value representable as `usize`: at least
/// one digit after the optional sign, digits throughout, and no overflow.
pub open spec fn is_usize_numeral(s: Seq<char>) -> bool {
    let d = numeral_digits(s);
    &&& d.len() > 0
    &&& all_digits(d)
    &&& digits_val(d) <= usize::MAX
}

/// The value a numeral denotes.
pub open spec fn numeral_val(s: Seq<char>) -> int {
    digits_val(numeral_digits(s))
}

/// A sequence of digits has a non-negative value.
proof fn lemma_digits_val_nonneg(s: Seq<char>)
    requires
        all_digits(s),
    ensures
        digits_val(s) >= 0,
    decreases s.len(),
{
    if s.len() > 0 {
        assert(all_digits(s.drop_last()));
        lemma_digits_val_nonneg(s.drop_last());
    }
}

/// Extending a sequence of digits never lowers its value.
proof fn lemma_digits_val_prefix_le(s: Seq<char>, i: int)
    requires
        all_digits(s),
        0 <= i <= s.len(),
    ensures
        digits_val(s.take(i)) <= digits_val(s),
    decreases s.len() - i,
{
    if i == s.len() {
        assert(s.take(i) =~= s);
    } else {
        assert(all_digits(s.take(i))) by {
            assert(forall|j: int| 0 <= j < i ==> s.take(i)[j] == #[trigger] s[j]);
        }
        assert(s.take(i + 1).drop_last() =~= s.take(i));
        lemma_digits_val_nonneg(s.take(i));
        assert(digits_val(s.take(i + 1)) == digits_val(s.take(i)) * 10 + digit_val(s[i]));
        lemma_digits_val_prefix_le(s, i + 1);
    }
}

/// Parses `s` as a decimal `usize` numeral, as `usize::from_str` would:
/// an optional leading `'+'`, then one or more digits, rejecting overflow.
pub fn parse_usize_dec(s: &str) -> (r: Option<usize>)
    ensures
        r is Some <==> is_usize_numeral(s@),
        r is Some ==> r->0 as int == numeral_val(s@),
{
    let len: usize = s.unicode_len();
    let start: usize = if len >= 1 && s.get_char(0) == '+' {
        1
    } else {
        0
    };
    let ghost d = numeral_digits(s@);
    proof {
        assert(d =~= s@.subrange(start as int, len as int));
    }
    if start >= len {
        return None;
    }
    let mut acc: usize = 0;
    let mut i: usize = start;
    proof {
        assert(d.take(0) =~= Seq::<char>::empty());
    }
    while i < len
        invariant
            start <= i <= len,
            len == s@.len(),
            start < len,
            d == s@.subrange(start as int, len as int),
            d == numeral_digits(s@),
            forall|j: int| 0 <= j < i - start ==> is_dec_digit(#[trigger] d[j]),
            acc as int == digits_val(d.take(i - start)),
        decreases len - i,
    {
        let c = s.get_char(i);
        let u = c as u32;
        if u < 48 || u > 57 {
            // A non-digit after the sign: no numeral, whatever follows.
            assert(!is_usize_numeral(s@)) by {
                assert(d[i - start] == s@[i as int]);
                assert(!is_dec_digit(d[i - start]));
            }
            return None;
        }
        let dv: usize = (u - 48) as usize;
        proof {
            assert(d.take(i - start + 1).drop_last() =~= d.take(i - start));
            assert(d.take(i - start + 1).last() == s@[i as int]);
            assert(digits_val(d.take(i - start + 1)) == acc as int * 10 + dv);
        }
        let shifted = match acc.checked_mul(10) {
            Some(v) => v,
            None => {
                assert(!is_usize_numeral(s@)) by {
                    if all_digits(d) {
                        lemma_digits_val_prefix_le(d, i - start + 1);
                        lemma_digits_val_nonneg(d.take(i - start + 1));
                    }
                }
                return None;
            },
        };
        let next = match shifted.checked_add(dv) {
            Some(v) => v,
            None => {
                assert(!is_usize_numeral(s@)) by {
                    if all_digits(d) {
                        lemma_digits_val_prefix_le(d, i - start + 1);
                    }
                }
                return None;
            },
        };
        acc = next;
        i = i + 1;
    }
    proof {
        assert(d.take(len - start) =~= d);
    }
    Some(acc)
}

/// How many trailing fragments are discarded as matched-text content: all
/// fragments beyond the path, the line number and the column number.
pub open spec fn content_frag_count(ps: Seq<Seq<char>>) -> int
    recommends
        ps.len() >= 4,
{
    if drive_prefixed(ps) {
        ps.len() - 4
    } else {
        ps.len() - 3
    }
}

/// Fragment accounting: once an argument splits into at least four
/// fragments, the content fragments number the total minus three (minus four
/// with a drive prefix), that count is never negative, and together with the
/// path fragments, the line number and the column number it accounts for
/// every fragment.
pub proof fn lemma_fragment_accounting(s: Seq<char>)
    requires
        split_frags(s).len() >= 4,
    ensures
        content_frag_count(split_frags(s)) >= 0,
        path_frag_count(split_frags(s)) + 2 + content_frag_count(split_frags(s)) == split_frags(
            s,
        ).len(),
{
}

/// Joining one more fragment appends a separator and the fragment.
proof fn lemma_join_frags_push(ps: Seq<Seq<char>>, q: Seq<char>)
    requires
        ps.len() >= 1,
    ensures
        join_frags(ps.push(q)) == join_frags(ps) + seq![':'] + q,
{
    assert(ps.push(q).drop_last() =~= ps);
}

/// No fragment of a split holds the separator.
pub proof fn lemma_split_frags_colon_free(s: Seq<char>)
    ensures
        forall|i: int, j: int|
            0 <= i < split_frags(s).len() && 0 <= j < split_frags(s)[i].len() ==> #[trigger] split_frags(
                s,
            )[i][j] != ':',
    decreases s.len(),
{
    if s.len() > 0 {
        lemma_split_frags_colon_free(s.drop_last());
        lemma_split_frags_len(s.drop_last());
    }
}

/// Splitting loses nothing: rejoining all fragments with the separator gives
/// back the argument. The path handed out for a drive-prefixed argument is
/// rebuilt the same way, so its embedded colon survives.
pub proof fn lemma_join_undoes_split(s: Seq<char>)
    ensures
        join_frags(split_frags(s)) == s,
    decreases s.len(),
{
    if s.len() == 0 {
        assert(split_frags(s)[0] =~= s);
    } else {
        let t = s.drop_last();
        lemma_join_undoes_split(t);
        lemma_split_frags_len(t);
        let ps = split_frags(t);
        if s.last() == ':' {
            lemma_join_frags_push(ps, Seq::<char>::empty());
            assert(join_frags(ps) + seq![':'] + Seq::<char>::empty() =~= t.push(':'));
            assert(t.push(':') =~= s);
        } else {
            let upd = ps.update(ps.len() - 1, ps.last().push(s.last()));
            if ps.len() == 1 {
                assert(join_frags(upd) == upd[0]);
                assert(upd[0] =~= t.push(s.last()));
            } else {
                assert(upd.drop_last() =~= ps.drop_last());
                assert(upd.last() == ps.last().push(s.last()));
                assert(join_frags(upd) == join_frags(ps.drop_last()) + seq![':']
                    + ps.last().push(s.last()));
                assert(join_frags(ps.drop_last()) + seq![':'] + ps.last().push(s.last()) =~= (
                join_frags(ps.drop_last()) + seq![':'] + ps.last()).push(s.last()));
            }
            assert(t.push(s.last()) =~= s);
        }
    }
}

/// A join splits back apart at any interior fragment boundary.
proof fn lemma_join_frags_split_at(ps: Seq<Seq<char>>, k: int)
    requires
        1 <= k < ps.len(),
    ensures
        join_frags(ps) == join_frags(ps.take(k)) + seq![':'] + join_frags(ps.skip(k)),
    decreases ps.len(),
{
    if ps.len() == k + 1 {
        assert(ps.take(k) =~= ps.drop_last());
        assert(ps.skip(k) =~= seq![ps.last()]);
        assert(join_frags(seq![ps.last()]) == ps.last());
    } else {
        let front = ps.drop_last();
        lemma_join_frags_split_at(front, k);
        assert(front.take(k) =~= ps.take(k));
        let tail = ps.skip(k);
        assert(tail.len() >= 2);
        assert(tail.drop_last() =~= front.skip(k));
        assert(tail.last() == ps.last());
        assert(join_frags(ps) == join_frags(front) + seq![':'] + ps.last());
        assert(join_frags(tail) == join_frags(front.skip(k)) + seq![':'] + ps.last());
        assert((join_frags(ps.take(k)) + seq![':'] + join_frags(front.skip(k))) + seq![':']
            + ps.last() =~= join_frags(ps.take(k)) + seq![':'] + (join_frags(front.skip(k))
            + seq![':'] + ps.last()));
    }
}

/// What parsing an argument yields: `None` when there are fewer than four
/// fragments, when the rejoined path would be empty, or when the line-number
/// fragment is no `usize` numeral; otherwise the rejoined path fragments and
/// the line number. The line-number fragment sits just past the path, so a
/// drive prefix shifts it by one.
pub open spec fn parse_result(s: Seq<char>) -> Option<(Seq<char>, int)> {
    let ps = split_frags(s);
    if ps.len() < 4 {
        None
    } else {
        let k = path_frag_count(ps);
        let path = join_frags(ps.take(k));
        if path.len() == 0 {
            None
        } else if is_usize_numeral(ps[k]) {
            Some((path, numeral_val(ps[k])))
        } else {
            None
        }
    }
}

/// Whatever colons the path itself held, a successful parse hands back a
/// path that stands letter for letter at the front of the argument, with a
/// separator right after it.
pub proof fn lemma_path_is_prefix_of_arg(s: Seq<char>)
    requires
        parse_result(s) is Some,
    ensures
        ({
            let (path, line) = parse_result(s)->0;
            &&& path.len() < s.len()
            &&& s.take(path.len() as int) == path
            &&& s[path.len() as int] == ':'
        }),
{
    let ps = split_frags(s);
    let k = path_frag_count(ps);
    let path = join_frags(ps.take(k));
    lemma_join_undoes_split(s);
    lemma_join_frags_split_at(ps, k);
    assert(s == path + seq![':'] + join_frags(ps.skip(k)));
    assert(s.take(path.len() as int) =~= path);
}

/// Takes an argument assumed to be in grep line-result format,
/// `path:line:col: text`, and breaks it into the file path and the line
/// number. The matched text and the column number are discarded; a
/// drive-letter prefix is folded back into the path; a parse never hands
/// back an empty path. The result is a pure function of the argument,
/// spelled out by `parse_result`.
pub fn process_arg(arg: String) -> (r: Option<(String, usize)>)
    ensures
        r is Some <==> parse_result(arg@) is Some,
        r is Some ==> ({
            let (path, line) = r->0;
            let (spec_path, spec_line) = parse_result(arg@)->0;
            path@ == spec_path && line as int == spec_line
        }),
        r is Some ==> ({
            let (path, line) = r->0;
            path@.len() > 0
        }),
{
    let pieces = split_colon(arg.as_str());
    if pieces.len() < 4 {
        return None;
    }
    let keep: usize = if drive_prefix_detected(&pieces) {
        2
    } else {
        1
    };
    let path = join_pieces(&pieces, keep);
    if path.as_str().is_empty() {
        return None;
    }
    match parse_usize_dec(pieces[keep].as_str()) {
        Some(line) => Some((path, line)),
        None => None,
    }
}

} // verus!
