use vstd::prelude::*;

verus! {

/// How a line of a search stands: it matches, it is context near a match,
/// or it is not printed.
#[derive(PartialEq, Eq, Structural, Clone, Copy, Debug)]
pub enum Match {
    Skip,
    Exact,
    Aside,
}

impl From<bool> for Match {
    fn from(value: bool) -> (r: Match) {
        if value {
            Match::Exact
        } else {
            Match::Skip
        }
    }
}

impl vstd::std_specs::convert::FromSpecImpl<bool> for Match {
    open spec fn obeys_from_spec() -> bool {
        true
    }

    open spec fn from_spec(v: bool) -> Match {
        if v {
            Match::Exact
        } else {
            Match::Skip
        }
    }
}

/// Whether a matching line lies at most `after` lines before line `j` or at
/// most `before` lines after it.
pub open spec fn near_exact(flags: Seq<bool>, j: int, before: nat, after: nat) -> bool {
    exists|m: int| 0 <= m < flags.len() && #[trigger] flags[m] && j - after <= m <= j + before
}

/// The state of line `j` among lines whose match flags are `flags`.
pub open spec fn state(flags: Seq<bool>, j: int, before: nat, after: nat) -> Match {
    if flags[j] {
        Match::Exact
    } else if near_exact(flags, j, before, after) {
        Match::Aside
    } else {
        Match::Skip
    }
}

/// The printed lines among lines `lo..hi`: state, number and text of each
/// line that is not skipped, in order.
pub open spec fn report(
    flags: Seq<bool>,
    lines: Seq<Seq<char>>,
    before: nat,
    after: nat,
    lo: int,
    hi: int,
) -> Seq<(Match, int, Seq<char>)>
    decreases hi - lo,
{
    if hi <= lo {
        Seq::empty()
    } else {
        let rest = report(flags, lines, before, after, lo, hi - 1);
        let s = state(flags, hi - 1, before, after);
        if s == Match::Skip {
            rest
        } else {
            rest.push((s, hi - 1, lines[hi - 1]))
        }
    }
}

pub open spec fn item_view(x: (Match, usize, String)) -> (Match, int, Seq<char>) {
    (x.0, x.1 as int, x.2@)
}

/// A line's state is settled once the `before` lines after it are read.
pub proof fn lemma_state_settled(flags: Seq<bool>, more: Seq<bool>, j: int, before: nat, after: nat)
    requires
        0 <= j,
        j + before < flags.len(),
    ensures
        state(flags, j, before, after) == state(flags + more, j, before, after),
{
    let all = flags + more;
    assert(all[j] == flags[j]);
    if near_exact(all, j, before, after) {
        let m = choose|m: int| 0 <= m < all.len() && #[trigger] all[m] && j - after <= m <= j + before;
        assert(flags[m]);
    }
    if near_exact(flags, j, before, after) {
        let m = choose|m: int|
            0 <= m < flags.len() && #[trigger] flags[m] && j - after <= m <= j + before;
        assert(all[m]);
    }
}

proof fn lemma_report_settled(
    flags: Seq<bool>,
    more: Seq<bool>,
    lines: Seq<Seq<char>>,
    before: nat,
    after: nat,
    hi: int,
)
    requires
        0 <= hi,
        hi + before <= flags.len(),
    ensures
        report(flags, lines, before, after, 0, hi) == report(flags + more, lines, before, after, 0, hi),
    decreases hi,
{
    if hi > 0 {
        lemma_report_settled(flags, more, lines, before, after, hi - 1);
        lemma_state_settled(flags, more, hi - 1, before, after);
    }
}

/// The lines of a search as they stream in, holding back the last
/// `before + 1 + after` of them until their state is settled.
pub struct Matches {
    buf: Vec<(bool, usize, String)>,
    before: usize,
    after: usize,
    /// The latest matching line that has left the window.
    last_exact: Option<usize>,
    flags: Ghost<Seq<bool>>,
    lines: Ghost<Seq<Seq<char>>>,
    out: Ghost<Seq<(Match, int, Seq<char>)>>,
}

impl Matches {
    /// The match flags of the lines read so far.
    pub closed spec fn flags(&self) -> Seq<bool> {
        self.flags@
    }

    /// The texts of the lines read so far.
    pub closed spec fn lines(&self) -> Seq<Seq<char>> {
        self.lines@
    }

    /// The printed lines handed out so far.
    pub closed spec fn printed(&self) -> Seq<(Match, int, Seq<char>)> {
        self.out@
    }

    pub closed spec fn before(&self) -> nat {
        self.before as nat
    }

    pub closed spec fn after(&self) -> nat {
        self.after as nat
    }

    /// The number of lines that have left the window.
    pub closed spec fn left(&self) -> int {
        self.flags@.len() - self.buf@.len()
    }

    pub closed spec fn window(&self) -> int {
        self.before + 1 + self.after
    }

    pub closed spec fn wf(&self) -> bool {
        let n = self.flags@.len();
        let left = n - self.buf@.len();
        &&& self.before + 1 + self.after <= usize::MAX
        &&& self.lines@.len() == n
        &&& n <= usize::MAX
        &&& self.buf@.len() <= self.before + 1 + self.after
        &&& self.buf@.len() <= n
        &&& left > 0 ==> self.buf@.len() == self.before + 1 + self.after
        &&& forall|k: int|
            0 <= k < self.buf@.len() ==> (#[trigger] self.buf@[k]).0 == self.flags@[left + k]
                && self.buf@[k].1 == left + k && self.buf@[k].2@ == self.lines@[left + k]
        &&& match self.last_exact {
            Some(m) => m < left && self.flags@[m as int] && forall|i: int|
                m < i < left ==> !#[trigger] self.flags@[i],
            None => forall|i: int| 0 <= i < left ==> !#[trigger] self.flags@[i],
        }
        &&& self.out@ == report(
            self.flags@,
            self.lines@,
            self.before as nat,
            self.after as nat,
            0,
            left,
        )
    }

    /// A search that prints `before` lines before and `after` lines after
    /// each matching line.
    pub fn new(before: usize, after: usize) -> (r: Matches)
        requires
            before + 1 + after <= usize::MAX,
        ensures
            r.wf(),
            r.before() == before,
            r.after() == after,
            r.flags() == Seq::<bool>::empty(),
            r.lines() == Seq::<Seq<char>>::empty(),
            r.printed() == Seq::<(Match, int, Seq<char>)>::empty(),
    {
        Matches {
            buf: Vec::new(),
            before,
            after,
            last_exact: None,
            flags: Ghost(Seq::empty()),
            lines: Ghost(Seq::empty()),
            out: Ghost(Seq::empty()),
        }
    }

    /// The state of the window's `k`-th line, given `last`, the latest
    /// matching line before it.
    fn state_at(&self, k: usize, last: Option<usize>) -> (r: Match)
        requires
            self.wf(),
            k < self.buf@.len(),
            match last {
                Some(m) => m < self.left() + k && self.flags@[m as int] && forall|i: int|
                    m < i < self.left() + k ==> !#[trigger] self.flags@[i],
                None => forall|i: int| 0 <= i < self.left() + k ==> !#[trigger] self.flags@[i],
            },
            k + self.before < self.buf@.len() || self.left() + self.buf@.len() == self.flags@.len(),
        ensures
            r == state(self.flags@, self.left() + k, self.before as nat, self.after as nat),
    {
        let ghost flags = self.flags@;
        let ghost left = self.left();
        let ghost j = left + k;
        let (flag, id, _) = &self.buf[k];
        proof {
            assert(self.buf@[k as int].0 == flags[j]);
            assert(self.buf@[k as int].1 == j);
        }
        if *flag {
            return Match::Exact;
        }
        match last {
            Some(m) => {
                if *id - m <= self.after {
                    proof {
                        assert(flags[m as int]);
                        assert(near_exact(flags, j, self.before as nat, self.after as nat));
                    }
                    return Match::Aside;
                }
            },
            None => {},
        }
        let mut q: usize = k + 1;
        while q < self.buf.len() && q - k <= self.before
            invariant
                self.wf(),
                k < q,
                q <= self.buf@.len(),
                q - k <= self.before + 1,
                left + self.buf@.len() == flags.len(),
                left == self.left(),
                flags == self.flags@,
                j == left + k,
                forall|i: int| j < i < left + q ==> !#[trigger] flags[i],
                !flags[j],
                0 <= j < flags.len(),
            decreases self.buf@.len() - q,
        {
            proof {
                assert(self.buf@[q as int].0 == flags[left + q]);
            }
            if self.buf[q].0 {
                proof {
                    assert(flags[left + q]);
                    assert(near_exact(flags, j, self.before as nat, self.after as nat));
                }
                return Match::Aside;
            }
            q += 1;
        }
        proof {
            assert forall|m: int| 0 <= m < flags.len() && j - self.after <= m <= j + self.before
                implies !#[trigger] flags[m] by {
                if m == j {
                } else if m > j {
                    assert(m < left + q);
                } else {
                    match last {
                        Some(l) => {
                            if m == l {
                                assert(j - l > self.after);
                            }
                        },
                        None => {},
                    }
                }
            }
        }
        Match::Skip
    }

    /// Reads the next line, `id`, and hands out the line that leaves the
    /// window, if it leaves printed.
    pub fn insert(&mut self, is_match: bool, id: usize, val: String) -> (r: Option<
        (Match, usize, String),
    >)
        requires
            old(self).wf(),
            id == old(self).flags().len(),
            id < usize::MAX,
        ensures
            final(self).wf(),
            final(self).before() == old(self).before(),
            final(self).after() == old(self).after(),
            final(self).flags() == old(self).flags().push(is_match),
            final(self).lines() == old(self).lines().push(val@),
            final(self).printed() == old(self).printed() + match r {
                Some(x) => seq![item_view(x)],
                None => Seq::empty(),
            },
            r matches Some(x) ==> x.0 != Match::Skip,
            old(self).flags().len() < old(self).before() + 1 + old(self).after() ==> r is None,
            old(self).flags().len() >= old(self).before() + 1 + old(self).after() ==> ({
                let j = old(self).flags().len() - (old(self).before() + 1 + old(self).after());
                let s = state(final(self).flags(), j, old(self).before(), old(self).after());
                match r {
                    Some(x) => item_view(x) == (s, j, final(self).lines()[j]),
                    None => s == Match::Skip,
                }
            }),
    {
        let ghost f0 = self.flags@;
        let ghost l0 = self.lines@;
        let ghost left0 = self.left();
        let ghost b = self.before as nat;
        let ghost a = self.after as nat;
        proof {
            assert(self.wf());
        }
        if self.buf.len() < self.before + 1 + self.after {
            proof {
                assert(left0 == 0);
            }
            self.buf.push((is_match, id, val));
            proof {
                self.flags@ = f0.push(is_match);
                self.lines@ = l0.push(val@);
                assert(left0 == 0);
                assert(self.left() == 0);
                assert(self.out@ == report(self.flags@, self.lines@, b, a, 0, 0));
                assert forall|k: int| 0 <= k < self.buf@.len() implies (#[trigger] self.buf@[k]).0
                    == self.flags@[k] && self.buf@[k].1 == k && self.buf@[k].2@
                    == self.lines@[k] by {}
            }
            return None;
        }
        let s = self.state_at(0, self.last_exact);
        let (flag, j, text) = self.buf.remove(0);
        if flag {
            self.last_exact = Some(j);
        }
        self.buf.push((is_match, id, val));
        proof {
            self.flags@ = f0.push(is_match);
            self.lines@ = l0.push(val@);
            assert(f0 + seq![is_match] =~= self.flags@);
            lemma_state_settled(f0, seq![is_match], left0, b, a);
            lemma_report_settled(f0, seq![is_match], l0, b, a, left0);
            lemma_report_lines(self.flags@, l0, self.lines@, b, a, left0);
            let item = (s, left0, self.lines@[left0]);
            assert(text@ == self.lines@[left0]);
            if s == Match::Skip {
                self.out@ = self.out@;
            } else {
                self.out@ = self.out@.push(item);
            }
            assert(self.out@ == report(self.flags@, self.lines@, b, a, 0, left0 + 1));
            assert forall|k: int| 0 <= k < self.buf@.len() implies (#[trigger] self.buf@[k]).0
                == self.flags@[left0 + 1 + k] && self.buf@[k].1 == left0 + 1 + k && self.buf@[k].2@
                == self.lines@[left0 + 1 + k] by {
                if k < self.buf@.len() - 1 {
                    assert(self.buf@[k] == old(self).buf@[k + 1]);
                }
            }
        }
        if s == Match::Skip {
            None
        } else {
            Some((s, j, text))
        }
    }

    /// Ends the search: hands out the lines still in the window that are
    /// printed. With what `insert` handed out before, these are exactly the
    /// printed lines of the whole input, in order.
    pub fn clear(self) -> (r: Vec<(Match, usize, String)>)
        requires
            self.wf(),
        ensures
            self.printed() + r@.map_values(|x: (Match, usize, String)| item_view(x)) == report(
                self.flags(),
                self.lines(),
                self.before(),
                self.after(),
                0,
                self.flags().len() as int,
            ),
            forall|i: int| 0 <= i < r@.len() ==> (#[trigger] r@[i]).0 != Match::Skip,
    {
        let ghost flags = self.flags@;
        let ghost lines = self.lines@;
        let ghost left = self.left();
        let ghost b = self.before as nat;
        let ghost a = self.after as nat;
        let mut states: Vec<Match> = Vec::new();
        let mut last = self.last_exact;
        let mut k: usize = 0;
        while k < self.buf.len()
            invariant
                self.wf(),
                flags == self.flags@,
                left == self.left(),
                b == self.before as nat,
                a == self.after as nat,
                k <= self.buf@.len(),
                states@.len() == k,
                forall|i: int| 0 <= i < k ==> #[trigger] states@[i] == state(flags, left + i, b, a),
                match last {
                    Some(m) => m < left + k && flags[m as int] && forall|i: int|
                        m < i < left + k ==> !#[trigger] flags[i],
                    None => forall|i: int| 0 <= i < left + k ==> !#[trigger] flags[i],
                },
            decreases self.buf@.len() - k,
        {
            let s = self.state_at(k, last);
            proof {
                assert(self.buf@[k as int].0 == flags[left + k]);
                assert(self.buf@[k as int].1 == left + k);
            }
            if self.buf[k].0 {
                last = Some(self.buf[k].1);
            }
            let ghost st0 = states@;
            states.push(s);
            proof {
                assert(states@ == st0.push(s));
                assert(s == state(flags, left + k, b, a));
                assert forall|i: int| 0 <= i < k + 1 implies #[trigger] states@[i] == state(
                    flags,
                    left + i,
                    b,
                    a,
                ) by {
                    if i < k {
                        assert(states@[i] == st0[i]);
                    }
                }
            }
            k += 1;
        }
        let Matches { buf, .. } = self;
        let ghost all = buf@;
        proof {
            assert(self.wf());
        }
        let mut items = buf;
        let mut out: Vec<(Match, usize, String)> = Vec::new();
        let mut k: usize = 0;
        proof {
            assert(all.skip(0) =~= all);
            assert(out@.map_values(|x: (Match, usize, String)| item_view(x)) =~= Seq::<
                (Match, int, Seq<char>),
            >::empty());
            assert(self.out@ + Seq::<(Match, int, Seq<char>)>::empty() =~= self.out@);
        }
        while items.len() > 0
            invariant
                k <= all.len(),
                all.len() <= usize::MAX,
                lines.len() == flags.len(),
                items@ == all.skip(k as int),
                left + all.len() == flags.len(),
                states@.len() == all.len(),
                forall|i: int| 0 <= i < all.len() ==> #[trigger] states@[i] == state(flags, left + i, b, a),
                forall|i: int|
                    0 <= i < all.len() ==> (#[trigger] all[i]).1 == left + i && all[i].2@ == lines[left + i],
                self.out@ + out@.map_values(|x: (Match, usize, String)| item_view(x)) == report(
                    flags,
                    lines,
                    b,
                    a,
                    0,
                    left + k,
                ),
                forall|i: int| 0 <= i < out@.len() ==> (#[trigger] out@[i]).0 != Match::Skip,
            decreases items@.len(),
        {
            let ghost before_out = out@;
            let (_, id, text) = items.remove(0);
            proof {
                assert(all.skip(k as int)[0] == all[k as int]);
                assert(items@ =~= all.skip(k + 1));
            }
            let s = states[k];
            if s != Match::Skip {
                out.push((s, id, text));
                proof {
                    assert(out@.map_values(|x: (Match, usize, String)| item_view(x)) =~= before_out.map_values(
                        |x: (Match, usize, String)| item_view(x),
                    ).push(item_view((s, id, text))));
                }
            }
            k += 1;
        }
        proof {
            assert(k == all.len());
        }
        out
    }
}

proof fn lemma_report_lines(
    flags: Seq<bool>,
    lines: Seq<Seq<char>>,
    more: Seq<Seq<char>>,
    before: nat,
    after: nat,
    hi: int,
)
    requires
        0 <= hi <= lines.len(),
        more.len() >= lines.len(),
        forall|i: int| 0 <= i < lines.len() ==> more[i] == lines[i],
    ensures
        report(flags, lines, before, after, 0, hi) == report(flags, more, before, after, 0, hi),
    decreases hi,
{
    if hi > 0 {
        lemma_report_lines(flags, lines, more, before, after, hi - 1);
    }
}

} // verus!

verus! {

#[verifier::external_type_specification]
#[verifier::external_body]
pub struct ExRegex(regex::Regex);

#[verifier::external_type_specification]
#[verifier::external_body]
pub struct ExRegexError(regex::Error);

/// The characters that have a meaning in a regular expression.
pub open spec fn is_meta(c: char) -> bool {
    c == '\\' || c == '.' || c == '+' || c == '*' || c == '?' || c == '(' || c == ')' || c == '|'
        || c == '[' || c == ']' || c == '{' || c == '}' || c == '^' || c == '$' || c == '#' || c
        == '&' || c == '-' || c == '~'
}

/// The pattern that matches `s` literally: a backslash before each meta
/// character.
pub open spec fn escaped(s: Seq<char>) -> Seq<char>
    decreases s.len(),
{
    if s.len() == 0 {
        Seq::empty()
    } else {
        let rest = escaped(s.drop_last());
        if is_meta(s.last()) {
            rest.push('\\').push(s.last())
        } else {
            rest.push(s.last())
        }
    }
}

/// Whether `pattern` is a regular expression that compiles within the
/// default size limits.
pub uninterp spec fn compiles(pattern: Seq<char>) -> bool;

/// Whether the regular expression `pattern` matches somewhere in `hay`.
pub uninterp spec fn pattern_matches(pattern: Seq<char>, hay: Seq<char>) -> bool;

/// Relies on `regex::escape`: each meta character of the text gets a
/// backslash before it.
#[verifier::external_body]
fn escape_text(s: &str) -> (r: String)
    ensures
        r@ == escaped(s@),
{
    regex::escape(s)
}

/// A compiled regular expression with the pattern it was compiled from.
pub struct Compiled {
    inner: regex::Regex,
    source: String,
}

impl Compiled {
    /// The pattern it was compiled from.
    pub closed spec fn source(&self) -> Seq<char> {
        self.source@
    }
}

/// Relies on `regex::Regex::new`: compiles `pattern`, failing on bad syntax
/// or a pattern over the default size limit.
#[verifier::external_body]
fn compile(pattern: &str) -> (r: Result<Compiled, regex::Error>)
    ensures
        r is Ok == compiles(pattern@),
        r matches Ok(c) ==> c.source() == pattern@,
{
    let inner = regex::Regex::new(pattern)?;
    Ok(Compiled { inner, source: pattern.to_owned() })
}

/// Relies on `regex::Regex::is_match`: whether the compiled pattern matches
/// somewhere in `hay`.
#[verifier::external_body]
fn found_in(c: &Compiled, hay: &str) -> (r: bool)
    ensures
        r == pattern_matches(c.source(), hay@),
{
    c.inner.is_match(hay)
}

/// Why a search pattern was refused.
#[derive(PartialEq, Eq, Structural, Clone, Copy, Debug)]
pub enum PatternError {
    /// It does not compile as a regular expression.
    Invalid,
}

/// The regular expression a search uses: the pattern, escaped for a fixed
/// string, marked case-insensitive where case is ignored.
pub open spec fn search_pattern(pattern: Seq<char>, ignore_case: bool, fixed_string: bool) -> Seq<
    char,
> {
    let p = if fixed_string {
        escaped(pattern)
    } else {
        pattern
    };
    if ignore_case {
        "(?i)"@ + p
    } else {
        p
    }
}

/// How lines are matched, and how much context is printed around matches.
pub struct AppRegex {
    inner: Compiled,
    invert_match: bool,
    before: usize,
    after: usize,
}

impl AppRegex {
    /// The regular expression it searches with.
    pub closed spec fn pattern(&self) -> Seq<char> {
        self.inner.source()
    }

    /// Whether it selects the lines that do not match.
    pub closed spec fn inverted(&self) -> bool {
        self.invert_match
    }

    pub closed spec fn lines_before(&self) -> usize {
        self.before
    }

    pub closed spec fn lines_after(&self) -> usize {
        self.after
    }

    /// The number of lines printed before each match.
    pub fn before(&self) -> (r: usize)
        ensures
            r == self.lines_before(),
    {
        self.before
    }

    /// The number of lines printed after each match.
    pub fn after(&self) -> (r: usize)
        ensures
            r == self.lines_after(),
    {
        self.after
    }

    /// Builds the matcher of a search from its options; `context` is the
    /// number of lines to print before and after each match.
    pub fn build(
        pattern: &str,
        ignore_case: bool,
        fixed_string: bool,
        invert_match: bool,
        context: (u32, u32),
    ) -> (r: Result<AppRegex, PatternError>)
        ensures
            r is Ok == compiles(search_pattern(pattern@, ignore_case, fixed_string)),
            r matches Ok(a) ==> a.pattern() == search_pattern(pattern@, ignore_case, fixed_string)
                && a.inverted() == invert_match && a.lines_before() == context.0 && a.lines_after() == context.1,
            r matches Err(e) ==> e == PatternError::Invalid,
    {
        let mut re = if fixed_string {
            escape_text(pattern)
        } else {
            pattern.to_owned()
        };
        if ignore_case {
            let mut marked = "(?i)".to_owned();
            marked.append(re.as_str());
            re = marked;
        }
        match compile(re.as_str()) {
            Ok(inner) => Ok(
                AppRegex {
                    inner,
                    invert_match,
                    before: context.0 as usize,
                    after: context.1 as usize,
                },
            ),
            Err(_) => Err(PatternError::Invalid),
        }
    }

    /// Whether a line is selected: it matches, or with inversion it does not.
    pub fn is_match(&self, haystack: &str) -> (r: bool)
        ensures
            r == (pattern_matches(self.pattern(), haystack@) != self.inverted()),
    {
        found_in(&self.inner, haystack) != self.invert_match
    }
}

} // verus!

verus! {

/// Whether line `l` is selected by `re`.
pub open spec fn selected(re: AppRegex, l: Seq<char>) -> bool {
    pattern_matches(re.pattern(), l) != re.inverted()
}

/// How many of `items` are matching lines.
pub open spec fn exact_count(items: Seq<(Match, int, Seq<char>)>) -> nat
    decreases items.len(),
{
    if items.len() == 0 {
        0
    } else {
        exact_count(items.drop_last()) + if items.last().0 == Match::Exact {
            1nat
        } else {
            0nat
        }
    }
}

proof fn lemma_exact_count_bound(items: Seq<(Match, int, Seq<char>)>)
    ensures
        exact_count(items) <= items.len(),
    decreases items.len(),
{
    if items.len() > 0 {
        lemma_exact_count_bound(items.drop_last());
    }
}

/// Searches `lines` with `re`: the printed lines with their states and
/// numbers (from 0), in order, and the number of matching lines.
pub fn search_lines(re: &AppRegex, lines: Vec<String>) -> (r: (Vec<(Match, usize, String)>, usize))
    requires
        re.lines_before() + 1 + re.lines_after() <= usize::MAX,
        lines@.len() < usize::MAX,
    ensures
        ({
            let flags = Seq::new(lines@.len(), |i: int| selected(*re, lines@[i]@));
            let printed = report(
                flags,
                crate::cmd::texts(lines@),
                re.lines_before() as nat,
                re.lines_after() as nat,
                0,
                lines@.len() as int,
            );
            &&& r.0@.map_values(|x: (Match, usize, String)| item_view(x)) == printed
            &&& r.1 == exact_count(printed)
        }),
{
    let ghost n = lines@.len();
    let ghost flags = Seq::new(lines@.len(), |i: int| selected(*re, lines@[i]@));
    let ghost ts = crate::cmd::texts(lines@);
    let mut m = Matches::new(re.before(), re.after());
    let mut out: Vec<(Match, usize, String)> = Vec::new();
    let mut rest = lines;
    let ghost all = rest@;
    let mut id: usize = 0;
    while rest.len() > 0
        invariant
            m.wf(),
            n == all.len(),
            n < usize::MAX,
            id <= n,
            rest@ == all.skip(id as int),
            flags == Seq::new(all.len(), |i: int| selected(*re, all[i]@)),
            ts == crate::cmd::texts(all),
            m.before() == re.lines_before(),
            m.after() == re.lines_after(),
            m.flags() == flags.take(id as int),
            m.lines() == ts.take(id as int),
            m.printed() == out@.map_values(|x: (Match, usize, String)| item_view(x)),
        decreases rest@.len(),
    {
        let line = rest.remove(0);
        proof {
            assert(all.skip(id as int)[0] == all[id as int]);
            assert(rest@ =~= all.skip(id + 1));
        }
        let hit = re.is_match(line.as_str());
        let ghost o0 = out@;
        let ghost text = line@;
        match m.insert(hit, id, line) {
            Some(x) => {
                out.push(x);
                proof {
                    assert(out@.map_values(|x: (Match, usize, String)| item_view(x)) =~= o0.map_values(
                        |x: (Match, usize, String)| item_view(x),
                    ).push(item_view(x)));
                }
            },
            None => {},
        }
        proof {
            assert(flags.take(id + 1) =~= flags.take(id as int).push(hit));
            assert(ts.take(id + 1) =~= ts.take(id as int).push(text));
        }
        id += 1;
    }
    proof {
        assert(flags.take(id as int) =~= flags);
        assert(ts.take(id as int) =~= ts);
    }
    let ghost before_clear = out@;
    let mut tail = m.clear();
    let ghost t0 = tail@;
    out.append(&mut tail);
    proof {
        assert((before_clear + t0).map_values(|x: (Match, usize, String)| item_view(x)) =~= before_clear.map_values(
            |x: (Match, usize, String)| item_view(x),
        ) + t0.map_values(|x: (Match, usize, String)| item_view(x)));
    }
    let ghost printed = out@.map_values(|x: (Match, usize, String)| item_view(x));
    let mut count: usize = 0;
    let mut j: usize = 0;
    while j < out.len()
        invariant
            j <= out@.len(),
            printed == out@.map_values(|x: (Match, usize, String)| item_view(x)),
            count == exact_count(printed.take(j as int)),
        decreases out@.len() - j,
    {
        proof {
            assert(printed.take(j + 1).drop_last() =~= printed.take(j as int));
            assert(printed.take(j + 1).last() == item_view(out@[j as int]));
            lemma_exact_count_bound(printed.take(j as int));
        }
        if out[j].0 == Match::Exact {
            count += 1;
        }
        j += 1;
    }
    proof {
        assert(printed.take(j as int) =~= printed);
    }
    (out, count)
}

} // verus!
