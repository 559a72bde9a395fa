use vstd::prelude::*;
use std::collections::HashSet;
use crate::scan::{find, find_in, number, number_in};
use crate::text::{chars_of, push_char, string_of};

verus! {

broadcast use vstd::std_specs::hash::group_hash_axioms;

/// Why a field number does not read.
#[derive(PartialEq, Eq, Structural, Clone, Copy, Debug)]
pub enum ParseFieldError {
    /// Not a number that fits in a `u32`.
    ParseIntError,
    /// Fields are numbered from 1.
    LessThanOne,
}

/// The `u32` that `s` writes in decimal, with an optional `+`.
pub open spec fn u32_of(s: Seq<char>) -> Option<u32> {
    let digits = if s.len() > 0 && s[0] == '+' {
        s.skip(1)
    } else {
        s
    };
    match number(digits) {
        Some(v) => if v <= u32::MAX {
            Some(v as u32)
        } else {
            None
        },
        None => None,
    }
}

/// Reads a field number, counted from 1, as a column index counted from 0.
pub fn field_parser(s: &str) -> (r: Result<u32, ParseFieldError>)
    ensures
        match u32_of(s@) {
            None => r == Err::<u32, ParseFieldError>(ParseFieldError::ParseIntError),
            Some(0) => r == Err::<u32, ParseFieldError>(ParseFieldError::LessThanOne),
            Some(v) => r == Ok::<u32, ParseFieldError>((v - 1) as u32),
        },
{
    let cs = chars_of(s);
    let start: usize = if cs.len() > 0 && cs[0] == '+' { 1 } else { 0 };
    proof {
        if start == 1 {
            assert(cs@.subrange(1, cs@.len() as int) =~= s@.skip(1));
        } else {
            assert(cs@.subrange(0, cs@.len() as int) =~= s@);
        }
    }
    match number_in(&cs, start, cs.len()) {
        None => Err(ParseFieldError::ParseIntError),
        Some(v) => {
            if v > u32::MAX as u64 {
                Err(ParseFieldError::ParseIntError)
            } else if v == 0 {
                Err(ParseFieldError::LessThanOne)
            } else {
                Ok((v - 1) as u32)
            }
        },
    }
}

/// The pieces of `t` between the occurrences of `c`, as `str::split` gives
/// them.
pub open spec fn split_on(t: Seq<char>, c: char) -> Seq<Seq<char>>
    decreases t.len(),
{
    let i = find(t, c);
    if !(0 <= i < t.len()) {
        seq![t]
    } else {
        seq![t.take(i)] + split_on(t.skip(i + 1), c)
    }
}

/// The columns of `line` split at `del`, each kept where its index is
/// among `fields`; `None` where the line holds no `del`.
pub open spec fn cut_columns(line: Seq<char>, fields: Set<usize>, del: char) -> Option<
    Seq<Option<Seq<char>>>,
> {
    if !line.contains(del) {
        None
    } else {
        let cols = split_on(line, del);
        Some(
            Seq::new(
                cols.len(),
                |i: int|
                    if i <= usize::MAX && fields.contains(i as usize) {
                        Some(cols[i])
                    } else {
                        None
                    },
            ),
        )
    }
}

pub open spec fn column_texts(cols: Seq<Option<String>>) -> Seq<Option<Seq<char>>> {
    cols.map_values(
        |c: Option<String>|
            match c {
                Some(s) => Some(s@),
                None => None,
            },
    )
}

/// The texts of the kept columns, in order.
pub open spec fn kept(cols: Seq<Option<Seq<char>>>) -> Seq<Seq<char>>
    decreases cols.len(),
{
    if cols.len() == 0 {
        Seq::empty()
    } else {
        let k = kept(cols.drop_last());
        match cols.last() {
            Some(c) => k.push(c),
            None => k,
        }
    }
}

/// The parts joined by `del`.
pub open spec fn join(parts: Seq<Seq<char>>, del: char) -> Seq<char>
    decreases parts.len(),
{
    if parts.len() == 0 {
        Seq::empty()
    } else if parts.len() == 1 {
        parts[0]
    } else {
        join(parts.drop_last(), del).push(del) + parts.last()
    }
}

proof fn lemma_split_step(t: Seq<char>, c: char, pos: int, k: int)
    requires
        0 <= pos <= k < t.len(),
        find(t.skip(pos), c) == k - pos,
    ensures
        split_on(t.skip(pos), c) == seq![t.subrange(pos, k)] + split_on(t.skip(k + 1), c),
{
    let u = t.skip(pos);
    assert(u.take(k - pos) =~= t.subrange(pos, k));
    assert(u.skip(k - pos + 1) =~= t.skip(k + 1));
}

proof fn lemma_find_absent(t: Seq<char>, c: char)
    ensures
        find(t, c) < 0 <==> !t.contains(c),
    decreases t.len(),
{
    if t.len() > 0 {
        lemma_find_absent(t.skip(1), c);
        if t.skip(1).contains(c) {
            let j = choose|j: int| 0 <= j < t.skip(1).len() && t.skip(1)[j] == c;
            assert(t[j + 1] == c);
        }
        if t.contains(c) && t[0] != c {
            let j = choose|j: int| 0 <= j < t.len() && t[j] == c;
            assert(t.skip(1)[j - 1] == c);
        }
    }
}

/// Splits `line` at `del` and keeps the columns whose index, from 0, is
/// in `flds`; `None` where the line holds no `del`.
pub fn cut(line: &str, flds: &HashSet<usize>, del: char) -> (r: Option<Vec<Option<String>>>)
    ensures
        match cut_columns(line@, flds@, del) {
            None => r is None,
            Some(c) => r matches Some(v) && column_texts(v@) == c,
        },
{
    let cs = chars_of(line);
    let n = cs.len();
    proof {
        assert(cs@.subrange(0, n as int) =~= line@);
        lemma_find_absent(line@, del);
    }
    if find_in(&cs, 0, n, del).is_none() {
        return None;
    }
    let ghost all = split_on(line@, del);
    let mut cols: Vec<Option<String>> = Vec::new();
    let mut pos: usize = 0;
    let mut idx: usize = 0;
    proof {
        assert(cs@.skip(0) =~= cs@);
        assert(all =~= all.take(0) + split_on(cs@.skip(0), del));
        lemma_split_nonempty(line@, del);
    }
    loop
        invariant
            cs@ == line@,
            n == cs@.len(),
            pos <= n,
            idx == cols@.len(),
            idx < all.len(),
            idx <= pos,
            line@.contains(del),
            all == split_on(line@, del),
            all == all.take(idx as int) + split_on(cs@.skip(pos as int), del),
            forall|i: int|
                0 <= i < idx ==> #[trigger] column_texts(cols@)[i] == (if i <= usize::MAX
                    && flds@.contains(i as usize) {
                    Some(all[i])
                } else {
                    None
                }),
        decreases n - pos + 1,
    {
        let ghost c0 = cols@;
        match find_in(&cs, pos, n, del) {
            Some(k) => {
                proof {
                    assert(cs@.subrange(pos as int, n as int) =~= cs@.skip(pos as int));
                    lemma_split_step(cs@, del, pos as int, k as int);
                    lemma_split_nonempty(cs@.skip(k + 1), del);
                    assert(all.take(idx as int).len() == idx);
                    assert(all[idx as int] == cs@.subrange(pos as int, k as int));
                    assert(all.take(idx + 1) =~= all.take(idx as int).push(all[idx as int]));
                    assert(all == all.take(idx + 1) + split_on(cs@.skip(k + 1), del));
                }
                let piece = string_of(&slice_chars(&cs, pos, k));
                let kept_col = if flds.contains(&idx) { Some(piece) } else { None };
                cols.push(kept_col);
                proof {
                    assert(column_texts(cols@) =~= column_texts(c0).push(column_texts(cols@)[idx as int]));
                }
                pos = k + 1;
                idx = idx + 1;
            },
            None => {
                proof {
                    assert(cs@.subrange(pos as int, n as int) =~= cs@.skip(pos as int));
                    assert(split_on(cs@.skip(pos as int), del) == seq![cs@.skip(pos as int)]);
                    assert(all.len() == idx + 1);
                    assert(all[idx as int] == cs@.subrange(pos as int, n as int));
                }
                let piece = string_of(&slice_chars(&cs, pos, n));
                let kept_col = if flds.contains(&idx) { Some(piece) } else { None };
                cols.push(kept_col);
                proof {
                    assert(column_texts(cols@) =~= column_texts(c0).push(column_texts(cols@)[idx as int]));
                    let want = Seq::new(
                        all.len(),
                        |i: int|
                            if i <= usize::MAX && flds@.contains(i as usize) {
                                Some(all[i])
                            } else {
                                None
                            },
                    );
                    assert(column_texts(cols@) =~= want);
                }
                return Some(cols);
            },
        }
    }
}

proof fn lemma_split_nonempty(t: Seq<char>, c: char)
    ensures
        split_on(t, c).len() > 0,
{
}

fn slice_chars(cs: &Vec<char>, lo: usize, hi: usize) -> (r: Vec<char>)
    requires
        lo <= hi <= cs@.len(),
    ensures
        r@ == cs@.subrange(lo as int, hi as int),
{
    let mut r: Vec<char> = Vec::new();
    let mut i: usize = lo;
    while i < hi
        invariant
            lo <= i <= hi <= cs@.len(),
            r@ == cs@.subrange(lo as int, i as int),
        decreases hi - i,
    {
        r.push(cs[i]);
        proof {
            assert(cs@.subrange(lo as int, i + 1) =~= cs@.subrange(lo as int, i as int).push(cs@[i as int]));
        }
        i += 1;
    }
    r
}

/// The kept columns joined by `del`, or `dflt` where the line was not cut.
pub fn format_with_or(dflt: &str, mb_cols: Option<Vec<Option<String>>>, del: char) -> (r: String)
    ensures
        match mb_cols {
            None => r@ == dflt@,
            Some(v) => r@ == join(kept(column_texts(v@)), del),
        },
{
    let cols = match mb_cols {
        None => return dflt.to_owned(),
        Some(v) => v,
    };
    let ghost ct = column_texts(cols@);
    let mut out = String::new();
    let mut any = false;
    let mut i: usize = 0;
    while i < cols.len()
        invariant
            i <= cols@.len(),
            ct == column_texts(cols@),
            out@ == join(kept(ct.take(i as int)), del),
            any == (kept(ct.take(i as int)).len() > 0),
        decreases cols@.len() - i,
    {
        proof {
            assert(ct.take(i + 1).drop_last() =~= ct.take(i as int));
            assert(ct.take(i + 1).last() == ct[i as int]);
        }
        let ghost k0 = kept(ct.take(i as int));
        match &cols[i] {
            Some(col) => {
                proof {
                    assert(ct[i as int] == Some(col@));
                    assert(kept(ct.take(i + 1)) == k0.push(col@));
                    assert(k0.push(col@).drop_last() =~= k0);
                    if !any {
                        assert(k0 =~= Seq::<Seq<char>>::empty());
                        assert(out@ =~= Seq::<char>::empty());
                    }
                }
                if any {
                    push_char(&mut out, del);
                }
                out.append(col.as_str());
                proof {
                    if !any {
                        assert(out@ =~= col@);
                    }
                }
            },
            None => {
                proof {
                    assert(kept(ct.take(i + 1)) == k0);
                }
            },
        }
        proof {
            if !any {
                assert(kept(ct.take(i as int)) =~= Seq::<Seq<char>>::empty());
            }
        }
        any = any || cols[i].is_some();
        i += 1;
    }
    proof {
        assert(ct.take(i as int) =~= ct);
    }
    out
}

/// The set of column indices that a list of field choices names, each
/// once.
pub fn field_set(fields: &Vec<u32>) -> (r: HashSet<usize>)
    ensures
        forall|c: usize| #[trigger] r@.contains(c) <==> exists|i: int|
            0 <= i < fields@.len() && fields@[i] as usize == c,
{
    let mut r: HashSet<usize> = HashSet::new();
    let mut i: usize = 0;
    while i < fields.len()
        invariant
            i <= fields@.len(),
            forall|c: usize| #[trigger] r@.contains(c) <==> exists|k: int|
                0 <= k < i && fields@[k] as usize == c,
        decreases fields@.len() - i,
    {
        let c = fields[i] as usize;
        r.insert(c);
        proof {
            assert forall|d: usize| #[trigger] r@.contains(d) <==> exists|k: int|
                0 <= k < i + 1 && fields@[k] as usize == d by {
                if d == c {
                    assert(fields@[i as int] as usize == d);
                }
                if exists|k: int| 0 <= k < i + 1 && fields@[k] as usize == d {
                    let k = choose|k: int| 0 <= k < i + 1 && fields@[k] as usize == d;
                    if k < i {
                        assert(exists|k2: int| 0 <= k2 < i && fields@[k2] as usize == d);
                    }
                }
            }
        }
        i += 1;
    }
    r
}

} // verus!
