//! The table-naming convention: the table for a schema path is the path
//! segments joined by `$`, with every occurrence of the root segment's
//! name prefix (the root segment followed by `_`) removed, scanning left
//! to right, as the storage layer names its auxiliary tables.

use vstd::prelude::*;
use vstd::string::StrSliceExecFns;
use vstd::string::StringExecFns;

verus! {

pub open spec fn path_view(p: Seq<String>) -> Seq<Seq<char>> {
    p.map(|i: int, s: String| s@)
}

/// Segments joined with `$`.
pub open spec fn joined_path(segs: Seq<Seq<char>>) -> Seq<char>
    decreases segs,
{
    if segs.len() == 0 {
        Seq::empty()
    } else if segs.len() == 1 {
        segs[0]
    } else {
        joined_path(segs.drop_last()) + seq!['$'] + segs.last()
    }
}

/// `s` with every occurrence of `pat` removed, scanning left to right
/// without overlap.
pub open spec fn remove_occurrences(s: Seq<char>, pat: Seq<char>) -> Seq<char>
    decreases s.len(),
{
    if pat.len() == 0 || s.len() < pat.len() {
        s
    } else if s.take(pat.len() as int) == pat {
        remove_occurrences(s.skip(pat.len() as int), pat)
    } else {
        seq![s[0]] + remove_occurrences(s.skip(1), pat)
    }
}

/// Storage table name for a schema path.
pub open spec fn table_name_spec(path: Seq<Seq<char>>) -> Seq<char>
    recommends
        path.len() >= 1,
{
    remove_occurrences(joined_path(path), path[0].push('_'))
}

/// Whether `pat` occurs in `s` starting at character position `i`.
fn matches_at(s: &str, i: usize, pat: &str) -> (r: bool)
    requires
        i <= s@.len(),
    ensures
        r == (i + pat@.len() <= s@.len() && s@.subrange(
            i as int,
            i + pat@.len(),
        ) == pat@),
{
    let slen = s.unicode_len();
    let plen = pat.unicode_len();
    if plen > slen - i {
        return false;
    }
    let mut j: usize = 0;
    while j < plen
        invariant
            0 <= j <= plen,
            i + plen <= slen,
            slen == s@.len(),
            plen == pat@.len(),
            forall|k: int| 0 <= k < j ==> s@[i + k] == pat@[k],
        decreases plen - j,
    {
        if s.get_char(i + j) != pat.get_char(j) {
            proof {
                assert(s@.subrange(i as int, i + pat@.len())[j as int] == s@[i + j]);
            }
            return false;
        }
        j += 1;
    }
    proof {
        assert(s@.subrange(i as int, i + pat@.len()) =~= pat@);
    }
    true
}

/// `s` with every occurrence of `pat` removed.
fn remove_occ(s: &str, pat: &str) -> (r: String)
    ensures
        r@ == remove_occurrences(s@, pat@),
{
    let slen = s.unicode_len();
    let plen = pat.unicode_len();
    let mut out = String::new();
    if plen == 0 {
        out.append(s);
        return out;
    }
    let mut i: usize = 0;
    proof {
        assert(s@.skip(0) =~= s@);
        assert(out@ + remove_occurrences(s@, pat@) =~= remove_occurrences(s@, pat@));
    }
    while i < slen
        invariant
            0 <= i <= slen,
            slen == s@.len(),
            plen == pat@.len(),
            plen > 0,
            out@ + remove_occurrences(s@.skip(i as int), pat@) == remove_occurrences(s@, pat@),
        decreases slen - i,
    {
        let ghost rest = s@.skip(i as int);
        if matches_at(s, i, pat) {
            proof {
                assert(rest.len() >= plen);
                assert(rest.take(plen as int) =~= s@.subrange(i as int, i + pat@.len()));
                assert(rest.skip(plen as int) =~= s@.skip(i + plen));
                assert(remove_occurrences(rest, pat@) == remove_occurrences(
                    s@.skip(i + plen),
                    pat@,
                ));
            }
            i += plen;
        } else {
            out.append(s.substring_char(i, i + 1));
            proof {
                assert(s@.subrange(i as int, i + 1) =~= seq![s@[i as int]]);
                if rest.len() >= plen {
                    assert(rest.take(plen as int) =~= s@.subrange(i as int, i + pat@.len()));
                    assert(rest[0] == s@[i as int]);
                    assert(rest.skip(1) =~= s@.skip(i + 1));
                    assert(remove_occurrences(rest, pat@) == seq![s@[i as int]]
                        + remove_occurrences(s@.skip(i + 1), pat@));
                } else {
                    assert(remove_occurrences(rest, pat@) == rest);
                    assert(remove_occurrences(s@.skip(i + 1), pat@) == s@.skip(i + 1));
                    assert(rest =~= seq![s@[i as int]] + s@.skip(i + 1));
                }
                assert(out@.drop_last() + (seq![s@[i as int]] + remove_occurrences(
                    s@.skip(i + 1),
                    pat@,
                )) =~= (out@.drop_last() + seq![s@[i as int]]) + remove_occurrences(
                    s@.skip(i + 1),
                    pat@,
                ));
                assert(out@.drop_last() + seq![s@[i as int]] =~= out@);
            }
            i += 1;
        }
    }
    proof {
        assert(s@.skip(slen as int) =~= Seq::<char>::empty());
        assert(remove_occurrences(Seq::<char>::empty(), pat@) == Seq::<char>::empty());
        assert(out@ + Seq::<char>::empty() =~= out@);
    }
    out
}

/// Path segments joined with `$`.
fn join_segments(path: &Vec<String>) -> (r: String)
    requires
        path@.len() >= 1,
    ensures
        r@ == joined_path(path_view(path@)),
{
    let ghost pv = path_view(path@);
    let mut out = path[0].clone();
    proof {
        assert(pv.take(1)[0] == path@[0]@);
        assert(pv.take(1).len() == 1);
    }
    let mut k: usize = 1;
    while k < path.len()
        invariant
            1 <= k <= path@.len(),
            pv == path_view(path@),
            out@ == joined_path(pv.take(k as int)),
        decreases path@.len() - k,
    {
        out.append("$");
        out.append(path[k].as_str());
        proof {
            reveal_strlit("$");
            assert("$"@ =~= seq!['$']);
            assert(pv.take(k + 1).drop_last() =~= pv.take(k as int));
            assert(pv.take(k + 1).last() == path@[k as int]@);
            assert(pv.take(k + 1).len() == k + 1 >= 2);
        }
        k += 1;
    }
    proof {
        assert(pv.take(path@.len() as int) =~= pv);
    }
    out
}

/// Storage table name for a schema path: the segments joined with `$`,
/// with every occurrence of the root segment's `_`-suffixed prefix removed.
pub fn table_name(path: &Vec<String>) -> (r: String)
    requires
        path@.len() >= 1,
    ensures
        r@ == table_name_spec(path_view(path@)),
{
    let joined = join_segments(path);
    let mut prefix = path[0].clone();
    prefix.append("_");
    proof {
        reveal_strlit("_");
        assert("_"@ =~= seq!['_']);
        assert(prefix@ =~= path_view(path@)[0].push('_'));
    }
    remove_occ(joined.as_str(), prefix.as_str())
}

} // verus!
