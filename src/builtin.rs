use vstd::prelude::*;
use crate::cmd::Cmd;
use crate::error::ShellError;
use crate::scan::{
    decimal, find, find_in, find_last, find_last_in, lemma_decimal_digits, lemma_find_last_bounds,
    lemma_find_bounds, lemma_find_is, lemma_find_last_is, number, number_in, push_decimal,
};
use crate::text::{all_digits, chars_of, is_digit, same_text, string_of};

verus! {

/// The fields of `[hh:]mm:ss`: hours if written, minutes, seconds.
pub open spec fn clock(t: Seq<char>) -> Option<(Option<nat>, nat, nat)> {
    let i = find(t, ':');
    if i < 0 {
        None
    } else {
        let rest = t.skip(i + 1);
        let j = find(rest, ':');
        if j < 0 {
            match (number(t.take(i)), number(rest)) {
                (Some(m), Some(s)) => Some((None, m, s)),
                _ => None,
            }
        } else {
            match (number(t.take(i)), number(rest.take(j)), number(rest.skip(j + 1))) {
                (Some(h), Some(m), Some(s)) => Some((Some(h), m, s)),
                _ => None,
            }
        }
    }
}

/// The milliseconds that an elapsed time `[[dd-]hh:]mm:ss` stands for.
pub open spec fn etime_ms(t: Seq<char>) -> Option<nat> {
    let d = find(t, '-');
    if d < 0 {
        match clock(t) {
            Some((Some(h), m, s)) => Some(((h * 60 + m) * 60 + s) * 1000),
            Some((None, m, s)) => Some((m * 60 + s) * 1000),
            None => None,
        }
    } else {
        match (number(t.take(d)), clock(t.skip(d + 1))) {
            (Some(days), Some((Some(h), m, s))) => Some(
                (((days * 24 + h) * 60 + m) * 60 + s) * 1000,
            ),
            _ => None,
        }
    }
}

/// The elapsed time of `t` in milliseconds, where it fits in a `u64`.
pub open spec fn elapsed_ms(t: Seq<char>) -> Option<u64> {
    match etime_ms(t) {
        Some(v) => if v <= u64::MAX {
            Some(v as u64)
        } else {
            None
        },
        None => None,
    }
}

/// The lines of `t`, split at each `\n`; a final `\n` ends the last line.
pub open spec fn lines(t: Seq<char>) -> Seq<Seq<char>>
    decreases t.len(),
{
    if t.len() == 0 {
        Seq::empty()
    } else {
        let i = find(t, '\n');
        if !(0 <= i < t.len()) {
            seq![t]
        } else {
            seq![t.take(i)] + lines(t.skip(i + 1))
        }
    }
}

/// A process-table line with its last field, the elapsed time, replaced by
/// that time in milliseconds; `None` where that field does not read as one.
pub open spec fn ps_line(l: Seq<char>) -> Option<Seq<char>> {
    let k = find_last(l, ' ');
    if k < 0 {
        None
    } else {
        match elapsed_ms(l.skip(k + 1)) {
            Some(ms) => Some(l.take(k + 1) + decimal(ms as nat)),
            None => None,
        }
    }
}

/// The rewritten lines, each ended by `\n`; lines that do not read are left out.
pub open spec fn ps_text(ls: Seq<Seq<char>>) -> Seq<char>
    decreases ls.len(),
{
    if ls.len() == 0 {
        Seq::empty()
    } else {
        match ps_line(ls[0]) {
            Some(x) => x.push('\n') + ps_text(ls.skip(1)),
            None => ps_text(ls.skip(1)),
        }
    }
}

pub open spec fn total_ms(days: nat, h: nat, m: nat, s: nat) -> nat {
    (((days * 24 + h) * 60 + m) * 60 + s) * 1000
}

proof fn lemma_total_ms_bounds(days: nat, h: nat, m: nat, s: nat)
    ensures
        days <= total_ms(days, h, m, s),
        h <= total_ms(days, h, m, s),
        m <= total_ms(days, h, m, s),
        s <= total_ms(days, h, m, s),
        days * 24 <= total_ms(days, h, m, s),
        days * 24 + h <= total_ms(days, h, m, s),
        (days * 24 + h) * 60 <= total_ms(days, h, m, s),
        (days * 24 + h) * 60 + m <= total_ms(days, h, m, s),
        ((days * 24 + h) * 60 + m) * 60 <= total_ms(days, h, m, s),
        ((days * 24 + h) * 60 + m) * 60 + s <= total_ms(days, h, m, s),
{
    assert(days <= days * 24) by (nonlinear_arith);
    let a = days * 24 + h;
    assert(a <= a * 60) by (nonlinear_arith);
    let b = a * 60 + m;
    assert(b <= b * 60) by (nonlinear_arith);
    let c = b * 60 + s;
    assert(c <= c * 1000) by (nonlinear_arith);
}

/// `total_ms` where it fits in a `u64`.
fn total_ms_exec(days: u64, h: u64, m: u64, s: u64) -> (r: Option<u64>)
    ensures
        if total_ms(days as nat, h as nat, m as nat, s as nat) <= u64::MAX {
            r == Some(total_ms(days as nat, h as nat, m as nat, s as nat) as u64)
        } else {
            r is None
        },
{
    proof {
        lemma_total_ms_bounds(days as nat, h as nat, m as nat, s as nat);
    }
    let a = match days.checked_mul(24) {
        Some(x) => x,
        None => return None,
    };
    let a = match a.checked_add(h) {
        Some(x) => x,
        None => return None,
    };
    let b = match a.checked_mul(60) {
        Some(x) => x,
        None => return None,
    };
    let b = match b.checked_add(m) {
        Some(x) => x,
        None => return None,
    };
    let c = match b.checked_mul(60) {
        Some(x) => x,
        None => return None,
    };
    let c = match c.checked_add(s) {
        Some(x) => x,
        None => return None,
    };
    c.checked_mul(1000)
}

pub open spec fn fits(v: Option<nat>) -> bool {
    v is None || v->0 <= u64::MAX
}

pub open spec fn narrow(v: Option<nat>) -> Option<u64> {
    match v {
        Some(x) => Some(x as u64),
        None => None,
    }
}

/// The fields of `cs[lo..hi]` read as `[hh:]mm:ss`, where each fits in a `u64`.
fn clock_in(cs: &Vec<char>, lo: usize, hi: usize) -> (r: Option<(Option<u64>, u64, u64)>)
    requires
        lo <= hi <= cs@.len(),
    ensures
        match clock(cs@.subrange(lo as int, hi as int)) {
            None => r is None,
            Some((h, m, s)) => if fits(h) && m <= u64::MAX && s <= u64::MAX {
                r == Some((narrow(h), m as u64, s as u64))
            } else {
                r is None
            },
        },
{
    let ghost t = cs@.subrange(lo as int, hi as int);
    let i = match find_in(cs, lo, hi, ':') {
        None => return None,
        Some(i) => i,
    };
    let ghost rest = t.skip(i - lo + 1);
    proof {
        assert(t.take(i - lo) =~= cs@.subrange(lo as int, i as int));
        assert(rest =~= cs@.subrange(i + 1, hi as int));
    }
    let first = number_in(cs, lo, i);
    match find_in(cs, i + 1, hi, ':') {
        None => {
            let second = number_in(cs, i + 1, hi);
            match (first, second) {
                (Some(m), Some(s)) => Some((None, m, s)),
                _ => None,
            }
        },
        Some(j) => {
            proof {
                assert(rest.take(j - i - 1) =~= cs@.subrange(i + 1, j as int));
                assert(rest.skip(j - i) =~= cs@.subrange(j + 1, hi as int));
            }
            let second = number_in(cs, i + 1, j);
            let third = number_in(cs, j + 1, hi);
            match (first, second, third) {
                (Some(h), Some(m), Some(s)) => Some((Some(h), m, s)),
                _ => None,
            }
        },
    }
}

/// The elapsed time written in `cs[lo..hi]`, in milliseconds.
fn elapsed_in(cs: &Vec<char>, lo: usize, hi: usize) -> (r: Option<u64>)
    requires
        lo <= hi <= cs@.len(),
    ensures
        r == elapsed_ms(cs@.subrange(lo as int, hi as int)),
{
    let ghost t = cs@.subrange(lo as int, hi as int);
    match find_in(cs, lo, hi, '-') {
        None => match clock_in(cs, lo, hi) {
            None => {
                proof {
                    match clock(t) {
                        Some((h, m, s)) => {
                            let hh: nat = match h { Some(x) => x, None => 0 };
                            lemma_total_ms_bounds(0, hh, m, s);
                        },
                        None => {},
                    }
                }
                None
            },
            Some((None, m, s)) => total_ms_exec(0, 0, m, s),
            Some((Some(h), m, s)) => total_ms_exec(0, h, m, s),
        },
        Some(d) => {
            proof {
                assert(t.take(d - lo) =~= cs@.subrange(lo as int, d as int));
                assert(t.skip(d - lo + 1) =~= cs@.subrange(d + 1, hi as int));
            }
            let days = number_in(cs, lo, d);
            let c = clock_in(cs, d + 1, hi);
            proof {
                match (number(t.take(d - lo)), clock(t.skip(d - lo + 1))) {
                    (Some(dd), Some((Some(h), m, s))) => {
                        lemma_total_ms_bounds(dd, h, m, s);
                    },
                    _ => {},
                }
            }
            match (days, c) {
                (Some(dd), Some((Some(h), m, s))) => total_ms_exec(dd, h, m, s),
                _ => None,
            }
        },
    }
}

proof fn lemma_lines_step(t: Seq<char>, pos: int, end: int)
    requires
        0 <= pos < t.len(),
        pos <= end <= t.len(),
        end < t.len() ==> find(t.skip(pos), '\n') == end - pos,
        end == t.len() ==> find(t.skip(pos), '\n') == -1,
    ensures
        lines(t.skip(pos)) == seq![t.subrange(pos, end)] + lines(t.skip(
            if end < t.len() {
                end + 1
            } else {
                end
            },
        )),
{
    let u = t.skip(pos);
    if end < t.len() {
        assert(u.take(end - pos) =~= t.subrange(pos, end));
        assert(u.skip(end - pos + 1) =~= t.skip(end + 1));
    } else {
        assert(u =~= t.subrange(pos, end));
        assert(t.skip(end) =~= Seq::<char>::empty());
        assert(seq![u] + Seq::<Seq<char>>::empty() =~= seq![u]);
    }
}

proof fn lemma_ps_text_cons(l: Seq<char>, rest: Seq<Seq<char>>)
    ensures
        ps_text(seq![l] + rest) == match ps_line(l) {
            Some(x) => x.push('\n') + ps_text(rest),
            None => ps_text(rest),
        },
{
    let ls = seq![l] + rest;
    assert(ls[0] == l);
    assert(ls.skip(1) =~= rest);
}

/// Appends the rewritten form of the line `cs[lo..hi]`, if it has one, and
/// its line end.
fn push_ps_line(cs: &Vec<char>, lo: usize, hi: usize, out: &mut Vec<char>)
    requires
        lo <= hi <= cs@.len(),
    ensures
        final(out)@ == old(out)@ + match ps_line(cs@.subrange(lo as int, hi as int)) {
            Some(x) => x.push('\n'),
            None => Seq::empty(),
        },
{
    let ghost line = cs@.subrange(lo as int, hi as int);
    let ghost out0 = out@;
    match find_last_in(cs, lo, hi, ' ') {
        None => {
            proof {
                assert(out@ =~= out0 + Seq::<char>::empty());
            }
        },
        Some(k) => {
            proof {
                assert(line.skip(k - lo + 1) =~= cs@.subrange(k + 1, hi as int));
                assert(line.take(k - lo + 1) =~= cs@.subrange(lo as int, k + 1));
            }
            match elapsed_in(cs, k + 1, hi) {
                None => {
                    proof {
                        assert(out@ =~= out0 + Seq::<char>::empty());
                    }
                },
                Some(ms) => {
                    let mut i: usize = lo;
                    while i <= k
                        invariant
                            lo <= i <= k + 1,
                            k < hi <= cs@.len(),
                            out@ == out0 + cs@.subrange(lo as int, i as int),
                        decreases k + 1 - i,
                    {
                        out.push(cs[i]);
                        proof {
                            assert(cs@.subrange(lo as int, i + 1) =~= cs@.subrange(
                                lo as int,
                                i as int,
                            ).push(cs@[i as int]));
                        }
                        i += 1;
                    }
                    push_decimal(ms, out);
                    out.push('\n');
                    proof {
                        assert(out@ =~= out0 + (cs@.subrange(lo as int, k + 1) + decimal(
                            ms as nat,
                        )).push('\n'));
                    }
                },
            }
        },
    }
}

/// Rewrites the process table that `ps -o pid= -o comm= -o etime=` prints:
/// on each line the last field, the elapsed time `[[dd-]hh:]mm:ss`, becomes
/// that time in milliseconds. Lines whose last field does not read as an
/// elapsed time are left out.
pub fn ps_table(raw: &str) -> (r: String)
    ensures
        r@ == ps_text(lines(raw@)),
{
    let cs = chars_of(raw);
    let n = cs.len();
    let mut out: Vec<char> = Vec::new();
    let mut pos: usize = 0;
    proof {
        assert(cs@.skip(0) =~= cs@);
        assert(Seq::<char>::empty() + ps_text(lines(cs@)) =~= ps_text(lines(cs@)));
    }
    while pos < n
        invariant
            cs@ == raw@,
            n == cs@.len(),
            pos <= n,
            ps_text(lines(cs@)) == out@ + ps_text(lines(cs@.skip(pos as int))),
        decreases n - pos,
    {
        let end = match find_in(&cs, pos, n, '\n') {
            Some(k) => k,
            None => n,
        };
        proof {
            assert(cs@.subrange(pos as int, n as int) =~= cs@.skip(pos as int));
        }
        let next = if end < n { end + 1 } else { n };
        let ghost line = cs@.subrange(pos as int, end as int);
        proof {
            lemma_lines_step(cs@, pos as int, end as int);
            lemma_ps_text_cons(line, lines(cs@.skip(next as int)));
        }
        push_ps_line(&cs, pos, end, &mut out);
        proof {
            assert(ps_text(lines(cs@)) =~= out@ + ps_text(lines(cs@.skip(next as int))));
        }
        pos = next;
    }
    proof {
        assert(cs@.skip(n as int) =~= Seq::<char>::empty());
        assert(out@ + ps_text(lines(Seq::<char>::empty())) =~= out@);
    }
    string_of(&out)
}

/// Whether the last field of `x`, after its last space, is a nonempty run
/// of decimal digits.
pub open spec fn ends_in_number(x: Seq<char>) -> bool {
    let k = find_last(x, ' ');
    0 <= k && x.skip(k + 1).len() > 0 && all_digits(x.skip(k + 1))
}

proof fn lemma_ps_line_ends_in_digits(l: Seq<char>)
    ensures
        ps_line(l) matches Some(x) ==> ends_in_number(x) && (!l.contains('\n') ==> !x.contains(
            '\n',
        )),
{
    let k = find_last(l, ' ');
    if k >= 0 {
        match elapsed_ms(l.skip(k + 1)) {
            Some(ms) => {
                lemma_find_last_bounds(l, ' ');
                let x = l.take(k + 1) + decimal(ms as nat);
                lemma_decimal_digits(ms as nat);
                assert(x.skip(k + 1) =~= decimal(ms as nat));
                assert(x[k] == l[k]);
                assert forall|j: int| k < j < x.len() implies x[j] != ' ' by {
                    assert(x[j] == decimal(ms as nat)[j - k - 1]);
                    assert(is_digit(decimal(ms as nat)[j - k - 1]));
                }
                lemma_find_last_is(x, ' ', k);
                if !l.contains('\n') && x.contains('\n') {
                    let j = choose|j: int| 0 <= j < x.len() && x[j] == '\n';
                    if j <= k {
                        assert(x[j] == l[j]);
                    } else {
                        assert(is_digit(decimal(ms as nat)[j - k - 1]));
                    }
                }
            },
            None => {},
        }
    }
}

proof fn lemma_lines_no_newline(t: Seq<char>)
    ensures
        forall|i: int| 0 <= i < lines(t).len() ==> !(#[trigger] lines(t)[i]).contains('\n'),
    decreases t.len(),
{
    if t.len() > 0 {
        lemma_find_bounds(t, '\n');
        let i = find(t, '\n');
        if !(0 <= i < t.len()) {
            assert(lines(t) =~= seq![t]);
        } else {
            lemma_lines_no_newline(t.skip(i + 1));
            let head = t.take(i);
            assert(!head.contains('\n')) by {
                if head.contains('\n') {
                    let j = choose|j: int| 0 <= j < head.len() && head[j] == '\n';
                    assert(t[j] == head[j]);
                }
            }
            assert forall|k: int| 0 <= k < lines(t).len() implies !(#[trigger] lines(t)[k]).contains(
                '\n',
            ) by {
                if k > 0 {
                    assert(lines(t)[k] == lines(t.skip(i + 1))[k - 1]);
                }
            }
        }
    }
}

proof fn lemma_lines_cons(x: Seq<char>, rest: Seq<char>)
    requires
        !x.contains('\n'),
    ensures
        lines(x.push('\n') + rest) == seq![x] + lines(rest),
{
    let t = x.push('\n') + rest;
    assert forall|j: int| 0 <= j < t.len() && (x.len() < 0 || j < x.len()) implies t[j] != '\n' by {
        assert(t[j] == x[j]);
    }
    lemma_find_is(t, '\n', x.len() as int);
    assert(t.take(x.len() as int) =~= x);
    assert(t.skip(x.len() as int + 1) =~= rest);
}

proof fn lemma_ps_text_lines(ls: Seq<Seq<char>>)
    requires
        forall|i: int| 0 <= i < ls.len() ==> !(#[trigger] ls[i]).contains('\n'),
    ensures
        forall|j: int|
            0 <= j < lines(ps_text(ls)).len() ==> ends_in_number(#[trigger] lines(ps_text(ls))[j]),
    decreases ls.len(),
{
    if ls.len() > 0 {
        let rest = ls.skip(1);
        assert forall|i: int| 0 <= i < rest.len() implies !(#[trigger] rest[i]).contains('\n') by {
            assert(rest[i] == ls[i + 1]);
        }
        lemma_ps_text_lines(rest);
        lemma_ps_line_ends_in_digits(ls[0]);
        match ps_line(ls[0]) {
            Some(x) => {
                lemma_lines_cons(x, ps_text(rest));
                let all = lines(ps_text(ls));
                assert forall|j: int| 0 <= j < all.len() implies ends_in_number(#[trigger] all[j]) by {
                    if j > 0 {
                        assert(all[j] == lines(ps_text(rest))[j - 1]);
                    }
                }
            },
            None => {},
        }
    }
}

/// The rewritten process table never keeps an elapsed time in its
/// `[[dd-]hh:]mm:ss` form: on every line of it, what follows the last space
/// is a nonempty run of decimal digits, the milliseconds, and nothing else.
pub proof fn lemma_ps_output_ends_in_digits(raw: Seq<char>)
    ensures
        forall|j: int|
            0 <= j < lines(ps_text(lines(raw))).len() ==> ends_in_number(
                #[trigger] lines(ps_text(lines(raw)))[j],
            ),
{
    lemma_lines_no_newline(raw);
    lemma_ps_text_lines(lines(raw));
}

/// The directory that `cd path` goes to: the home directory `home` where
/// the path is exactly `~`, else the path itself.
pub fn cd_target(path: &str, home: Option<String>) -> (r: Result<String, ShellError>)
    ensures
        path@ == "~"@ ==> match home {
            Some(h) => r matches Ok(t) && t@ == h@,
            None => r matches Err(ShellError::IoFailure(_)),
        },
        path@ != "~"@ ==> (r matches Ok(t) && t@ == path@),
{
    if same_text(path, "~") {
        match home {
            Some(h) => Ok(h),
            None => Err(ShellError::IoFailure("HOME is not set".to_owned())),
        }
    } else {
        Ok(path.to_owned())
    }
}

/// The error of a failed change of directory to `target`: `PathNotFound`
/// where the directory does not exist, else the system's `message`.
pub fn chdir_failure(target: String, not_found: bool, message: String) -> (r: ShellError)
    ensures
        not_found ==> r == ShellError::PathNotFound(target),
        !not_found ==> r == ShellError::IoFailure(message),
{
    if not_found {
        ShellError::PathNotFound(target)
    } else {
        ShellError::IoFailure(message)
    }
}

/// The text that bytes decode to as UTF-8, each invalid sequence replaced by
/// U+FFFD.
pub uninterp spec fn lossy_text(b: Seq<u8>) -> Seq<char>;

/// Relies on `String::from_utf8_lossy`: UTF-8 decoding with invalid
/// sequences replaced; the result depends on the bytes alone.
#[verifier::external_body]
fn decode_lossy(b: &[u8]) -> (r: String)
    ensures
        r@ == lossy_text(b@),
{
    String::from_utf8_lossy(b).into_owned()
}

/// The result of an external program that has ended: its standard output
/// as text on success, else `ExternalFailure` with its standard error.
pub fn external_result(success: bool, stdout: &[u8], stderr: &[u8]) -> (r: Result<
    String,
    ShellError,
>)
    ensures
        success ==> (r matches Ok(t) && t@ == lossy_text(stdout@)),
        !success ==> (r matches Err(ShellError::ExternalFailure(m)) && m@ == lossy_text(stderr@)),
{
    if success {
        Ok(decode_lossy(stdout))
    } else {
        Err(ShellError::ExternalFailure(decode_lossy(stderr)))
    }
}

/// The output of a builtin that needs no process work: `echo` gives its
/// string, whatever its input; the others give `None` and are run by the
/// driver.
pub fn pure_output(cmd: &Cmd, input: &Option<String>) -> (r: Option<String>)
    ensures
        match cmd {
            Cmd::Echo { string } => r matches Some(s) && s@ == string@,
            _ => r is None,
        },
{
    match cmd {
        Cmd::Echo { string } => Some(string.clone()),
        _ => None,
    }
}

} // verus!
