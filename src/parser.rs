use vstd::prelude::*;
use crate::cmd::{classifies, classify, texts, Cmd};
use crate::error::ShellError;
use crate::eval::Expr;
use crate::text::{blank, is_blank, same_text};

verus! {

/// A separator between commands.
#[derive(PartialEq, Eq, Structural, Clone, Copy, Debug)]
pub enum Redir {
    /// `|`
    Pipe,
    /// `&`
    Fork,
}

/// A command or a separator, in the order of the line.
#[derive(Debug)]
pub enum Token {
    Cmd(Cmd),
    Redir(Redir),
}

/// The tree that a token sequence builds: `Some(None)` for no tokens, `None`
/// where a separator lacks a side. `|` and `&` group to the right; `&` may end
/// the sequence, `|` may not.
pub open spec fn parse_tokens(t: Seq<Token>) -> Option<Option<Expr>>
    decreases t.len(),
{
    if t.len() == 0 {
        Some(None)
    } else {
        match t[0] {
            Token::Redir(_) => None,
            Token::Cmd(c) => if t.len() == 1 {
                Some(Some(Expr::Cmd(c)))
            } else {
                match t[1] {
                    Token::Cmd(_) => None,
                    Token::Redir(Redir::Pipe) => match parse_tokens(t.skip(2)) {
                        Some(Some(r)) => Some(
                            Some(Expr::Pipe { left: Box::new(Expr::Cmd(c)), right: Box::new(r) }),
                        ),
                        _ => None,
                    },
                    Token::Redir(Redir::Fork) => match parse_tokens(t.skip(2)) {
                        Some(r) => Some(
                            Some(
                                Expr::Fork {
                                    left: Box::new(Expr::Cmd(c)),
                                    right: match r {
                                        Some(e) => Some(Box::new(e)),
                                        None => None,
                                    },
                                },
                            ),
                        ),
                        None => None,
                    },
                }
            },
        }
    }
}

/// A piece of a word list: a maximal group of words between separators, or
/// a separator.
pub enum Piece {
    Group(Seq<Seq<char>>),
    Sep(Redir),
}

pub open spec fn separator(w: Seq<char>) -> Option<Redir> {
    if w == "|"@ {
        Some(Redir::Pipe)
    } else if w == "&"@ {
        Some(Redir::Fork)
    } else {
        None
    }
}

pub open spec fn group_piece(cur: Seq<Seq<char>>) -> Seq<Piece> {
    if cur.len() > 0 {
        seq![Piece::Group(cur)]
    } else {
        Seq::empty()
    }
}

/// The pieces of `w`, where `cur` holds the words of the group begun before it.
pub open spec fn pieces_from(w: Seq<Seq<char>>, cur: Seq<Seq<char>>) -> Seq<Piece>
    decreases w.len(),
{
    if w.len() == 0 {
        group_piece(cur)
    } else {
        match separator(w[0]) {
            Some(r) => group_piece(cur) + seq![Piece::Sep(r)] + pieces_from(w.skip(1), Seq::empty()),
            None => pieces_from(w.skip(1), cur.push(w[0])),
        }
    }
}

/// The pieces of a word list, in order; an empty group yields no piece.
pub open spec fn pieces(w: Seq<Seq<char>>) -> Seq<Piece> {
    pieces_from(w, Seq::empty())
}

pub open spec fn token_of_piece(p: Piece, t: Token) -> bool {
    match p {
        Piece::Sep(r) => t == Token::Redir(r),
        Piece::Group(g) => t matches Token::Cmd(c) && classifies(g, Ok(c)),
    }
}

/// Whether `t` is a token for each piece of `p`, in order.
pub open spec fn tokens_of(p: Seq<Piece>, t: Seq<Token>) -> bool {
    &&& p.len() == t.len()
    &&& forall|i: int| 0 <= i < p.len() ==> token_of_piece(#[trigger] p[i], t[i])
}

/// Whether `e` is the error of classifying some group of `p`.
pub open spec fn group_fails(p: Seq<Piece>, e: ShellError) -> bool {
    exists|i: int| 0 <= i < p.len() && (#[trigger] p[i] matches Piece::Group(g) && classifies(g, Err(e)))
}

fn separator_of(w: &str) -> (r: Option<Redir>)
    ensures
        r == separator(w@),
{
    if same_text(w, "|") {
        Some(Redir::Pipe)
    } else if same_text(w, "&") {
        Some(Redir::Fork)
    } else {
        None
    }
}

/// Turns a word list into tokens: each maximal group of words between `|`
/// and `&` becomes one classified command, each separator a `Redir`.
pub fn tokenize(words: &Vec<String>) -> (r: Result<Vec<Token>, ShellError>)
    ensures
        match r {
            Ok(t) => tokens_of(pieces(texts(words@)), t@),
            Err(e) => group_fails(pieces(texts(words@)), e),
        },
{
    let ghost w = texts(words@);
    let mut toks: Vec<Token> = Vec::new();
    let mut cur: Vec<String> = Vec::new();
    let ghost mut done: Seq<Piece> = Seq::empty();
    let mut i: usize = 0;
    proof {
        assert(w.skip(0) =~= w);
        assert(texts(cur@) =~= Seq::<Seq<char>>::empty());
        assert(done + pieces_from(w, Seq::empty()) =~= pieces_from(w, Seq::empty()));
    }
    while i < words.len()
        invariant
            w == texts(words@),
            i <= words@.len(),
            pieces(w) == done + pieces_from(w.skip(i as int), texts(cur@)),
            tokens_of(done, toks@),
        decreases words@.len() - i,
    {
        let ghost rest = w.skip(i as int);
        proof {
            assert(rest[0] == words@[i as int]@);
            assert(rest.skip(1) =~= w.skip(i + 1));
        }
        match separator_of(words[i].as_str()) {
            Some(r) => {
                if cur.len() > 0 {
                    proof {
                        assert(pieces(w)[done.len() as int] == Piece::Group(texts(cur@)));
                    }
                    match classify(&cur) {
                        Ok(c) => {
                            toks.push(Token::Cmd(c));
                            proof {
                                done = done.push(Piece::Group(texts(cur@)));
                            }
                        },
                        Err(e) => {
                            proof {
                                assert(pieces(w)[done.len() as int] == Piece::Group(texts(cur@)));
                            }
                            return Err(e);
                        },
                    }
                }
                toks.push(Token::Redir(r));
                proof {
                    done = done.push(Piece::Sep(r));
                }
                cur = Vec::new();
                proof {
                    assert(texts(cur@) =~= Seq::<Seq<char>>::empty());
                }
            },
            None => {
                let ghost c0 = cur@;
                cur.push(words[i].clone());
                proof {
                    assert(texts(cur@) =~= texts(c0).push(w[i as int]));
                }
            },
        }
        i += 1;
    }
    if cur.len() > 0 {
        match classify(&cur) {
            Ok(c) => {
                toks.push(Token::Cmd(c));
                proof {
                    done = done.push(Piece::Group(texts(cur@)));
                }
            },
            Err(e) => {
                proof {
                    assert(pieces(w)[done.len() as int] == Piece::Group(texts(cur@)));
                }
                return Err(e);
            },
        }
    }
    Ok(toks)
}

proof fn lemma_reverse_pop<A>(s: Seq<A>)
    requires
        s.len() > 0,
    ensures
        s.reverse()[0] == s.last(),
        s.reverse().skip(1) == s.drop_last().reverse(),
{
    assert(s.reverse().skip(1) =~= s.drop_last().reverse());
}

/// Builds the tree from a stack of tokens whose top is the first token.
fn parse_stack(stack: &mut Vec<Token>) -> (r: Result<Option<Expr>, ShellError>)
    ensures
        match parse_tokens(old(stack)@.reverse()) {
            Some(e) => r == Ok::<Option<Expr>, ShellError>(e),
            None => r matches Err(ShellError::DanglingPipe),
        },
    decreases old(stack)@.len(),
{
    let ghost s0 = stack@;
    let first = match stack.pop() {
        None => {
            proof {
                assert(s0.reverse() =~= Seq::<Token>::empty());
            }
            return Ok(None);
        },
        Some(t) => t,
    };
    proof {
        lemma_reverse_pop(s0);
    }
    let c = match first {
        Token::Redir(_) => return Err(ShellError::DanglingPipe),
        Token::Cmd(c) => c,
    };
    let ghost s1 = stack@;
    let sep = match stack.pop() {
        None => {
            proof {
                assert(s0.reverse().len() == 1);
            }
            return Ok(Some(Expr::Cmd(c)));
        },
        Some(t) => t,
    };
    proof {
        lemma_reverse_pop(s1);
        assert(s0.reverse().skip(2) =~= s1.reverse().skip(1));
        assert(s0.reverse()[1] == s1.reverse()[0]);
    }
    match sep {
        Token::Cmd(_) => Err(ShellError::DanglingPipe),
        Token::Redir(Redir::Pipe) => match parse_stack(stack) {
            Ok(Some(right)) => Ok(
                Some(Expr::Pipe { left: Box::new(Expr::Cmd(c)), right: Box::new(right) }),
            ),
            Ok(None) => Err(ShellError::DanglingPipe),
            Err(e) => Err(e),
        },
        Token::Redir(Redir::Fork) => match parse_stack(stack) {
            Ok(right) => Ok(
                Some(
                    Expr::Fork {
                        left: Box::new(Expr::Cmd(c)),
                        right: match right {
                            Some(e) => Some(Box::new(e)),
                            None => None,
                        },
                    },
                ),
            ),
            Err(e) => Err(e),
        },
    }
}

/// The one root expression that a token sequence builds: `None` where it
/// builds none, for want of tokens or of a separator's side.
pub open spec fn tree_of(t: Seq<Token>) -> Option<Expr> {
    match parse_tokens(t) {
        Some(Some(e)) => Some(e),
        _ => None,
    }
}

/// Builds the one expression tree of a token sequence: `MalformedInput`
/// when there are no tokens, `DanglingPipe` when a separator lacks a side.
pub fn parse(tokens: Vec<Token>) -> (r: Result<Expr, ShellError>)
    ensures
        tokens@.len() == 0 ==> r matches Err(ShellError::MalformedInput),
        tokens@.len() > 0 ==> match tree_of(tokens@) {
            Some(e) => r == Ok::<Expr, ShellError>(e),
            None => r matches Err(ShellError::DanglingPipe),
        },
{
    if tokens.len() == 0 {
        return Err(ShellError::MalformedInput);
    }
    let mut tokens = tokens;
    let ghost t = tokens@;
    let mut stack: Vec<Token> = Vec::new();
    while tokens.len() > 0
        invariant
            t == tokens@ + stack@.reverse(),
        decreases tokens@.len(),
    {
        let ghost before = tokens@;
        let ghost st = stack@;
        match tokens.pop() {
            Some(x) => {
                stack.push(x);
                proof {
                    assert(before == tokens@.push(x));
                    assert(stack@.reverse() =~= seq![x] + st.reverse());
                    assert(t =~= tokens@ + stack@.reverse());
                }
            },
            None => {},
        }
    }
    proof {
        assert(t =~= stack@.reverse());
    }
    match parse_stack(&mut stack) {
        Ok(Some(e)) => Ok(e),
        Ok(None) => Err(ShellError::DanglingPipe),
        Err(e) => Err(e),
    }
}

} // verus!

verus! {

/// The words of a line under POSIX shell word splitting (quotes, backslash
/// escapes, `#` comments), or `None` where a quote is left open or the line
/// ends in a lone backslash.
pub uninterp spec fn shell_words(line: Seq<char>) -> Option<Seq<Seq<char>>>;

/// Relies on `shlex::split`: POSIX shell word splitting of the whole line,
/// `None` where the line is erroneous.
#[verifier::external_body]
fn split_words(line: &str) -> (r: Option<Vec<String>>)
    ensures
        match r {
            Some(v) => shell_words(line@) == Some(texts(v@)),
            None => shell_words(line@) is None,
        },
{
    shlex::split(line)
}

/// What reading a line with the words `w` may give: a tree built from tokens
/// of `w`'s pieces, or the error of a group or of the tree.
/// A line without words has no tree.
pub open spec fn line_outcome(w: Seq<Seq<char>>, r: Result<Expr, ShellError>) -> bool {
    if pieces(w).len() == 0 {
        r matches Err(ShellError::MalformedInput)
    } else {
        match r {
            Ok(e) => exists|t: Seq<Token>| tokens_of(pieces(w), t) && tree_of(t) == Some(e),
            Err(e) => group_fails(pieces(w), e) || (e is DanglingPipe && exists|t: Seq<Token>|
                tokens_of(pieces(w), t) && tree_of(t) is None),
        }
    }
}

/// Reads one line into its one expression tree. The line is split into
/// shell words, grouped and classified into tokens, and the tokens build the
/// tree. A line without words, blank or a comment alone, has no tree:
/// `MalformedInput`.
pub fn parse_line(line: &str) -> (r: Result<Expr, ShellError>)
    ensures
        blank(line@) ==> r matches Err(ShellError::MalformedInput),
        !blank(line@) ==> match shell_words(line@) {
            None => r matches Err(ShellError::MalformedInput),
            Some(w) => line_outcome(w, r),
        },
{
    if is_blank(line) {
        return Err(ShellError::MalformedInput);
    }
    let words = match split_words(line) {
        None => return Err(ShellError::MalformedInput),
        Some(w) => w,
    };
    let tokens = match tokenize(&words) {
        Err(e) => return Err(e),
        Ok(t) => t,
    };
    let ghost t = tokens@;
    let r = parse(tokens);
    proof {
        assert(tokens_of(pieces(texts(words@)), t));
    }
    r
}

} // verus!

verus! {

pub open spec fn no_separator(g: Seq<Seq<char>>) -> bool {
    forall|i: int| 0 <= i < g.len() ==> separator(#[trigger] g[i]) is None
}

proof fn lemma_group_words(g: Seq<Seq<char>>, rest: Seq<Seq<char>>, cur: Seq<Seq<char>>)
    requires
        no_separator(g),
    ensures
        pieces_from(g + rest, cur) == pieces_from(rest, cur + g),
    decreases g.len(),
{
    if g.len() == 0 {
        assert(g + rest =~= rest);
        assert(cur + g =~= cur);
    } else {
        let x = g + rest;
        assert(x[0] == g[0]);
        assert(x.skip(1) =~= g.skip(1) + rest);
        assert(no_separator(g.skip(1))) by {
            assert forall|i: int| 0 <= i < g.skip(1).len() implies separator(
                #[trigger] g.skip(1)[i],
            ) is None by {
                assert(g.skip(1)[i] == g[i + 1]);
            }
        }
        lemma_group_words(g.skip(1), rest, cur.push(g[0]));
        assert(cur.push(g[0]) + g.skip(1) =~= cur + g);
    }
}

/// The pieces of a nonempty group of plain words followed by a separator
/// and more words.
proof fn lemma_pieces_group_sep(g: Seq<Seq<char>>, s: Seq<char>, rest: Seq<Seq<char>>)
    requires
        g.len() > 0,
        no_separator(g),
        separator(s) is Some,
    ensures
        pieces(g + seq![s] + rest) == seq![Piece::Group(g), Piece::Sep(separator(s)->0)]
            + pieces(rest),
{
    let x = g + seq![s] + rest;
    assert(x =~= g + (seq![s] + rest));
    lemma_group_words(g, seq![s] + rest, Seq::empty());
    let y = seq![s] + rest;
    assert(y[0] == s);
    assert(y.skip(1) =~= rest);
    assert(Seq::<Seq<char>>::empty() + g =~= g);
    assert(group_piece(g) + seq![Piece::Sep(separator(s)->0)] =~= seq![
        Piece::Group(g),
        Piece::Sep(separator(s)->0),
    ]);
}

/// The pieces of a nonempty group of plain words alone.
proof fn lemma_pieces_group(g: Seq<Seq<char>>)
    requires
        g.len() > 0,
        no_separator(g),
    ensures
        pieces(g) == seq![Piece::Group(g)],
{
    assert(g + Seq::<Seq<char>>::empty() =~= g);
    lemma_group_words(g, Seq::empty(), Seq::empty());
    assert(Seq::<Seq<char>>::empty() + g =~= g);
}

/// `|` groups to the right: the words of three commands joined by `|`, once
/// tokenized, build `a | (b | c)`.
pub proof fn lemma_pipe_groups_right(
    a: Seq<Seq<char>>,
    b: Seq<Seq<char>>,
    c: Seq<Seq<char>>,
    t: Seq<Token>,
)
    requires
        a.len() > 0 && b.len() > 0 && c.len() > 0,
        no_separator(a) && no_separator(b) && no_separator(c),
        tokens_of(pieces(a + seq!["|"@] + b + seq!["|"@] + c), t),
    ensures
        t.len() == 5,
        t[0] matches Token::Cmd(x) && classifies(a, Ok(x)),
        t[2] matches Token::Cmd(y) && classifies(b, Ok(y)),
        t[4] matches Token::Cmd(z) && classifies(c, Ok(z)),
        parse_tokens(t) == Some(
            Some(
                Expr::Pipe {
                    left: Box::new(Expr::Cmd(t[0]->Cmd_0)),
                    right: Box::new(
                        Expr::Pipe {
                            left: Box::new(Expr::Cmd(t[2]->Cmd_0)),
                            right: Box::new(Expr::Cmd(t[4]->Cmd_0)),
                        },
                    ),
                },
            ),
        ),
{
    let bar: Seq<char> = "|"@;
    let w = a + seq![bar] + b + seq![bar] + c;
    assert(w =~= a + seq![bar] + (b + seq![bar] + c));
    lemma_pieces_group_sep(a, bar, b + seq![bar] + c);
    lemma_pieces_group_sep(b, bar, c);
    lemma_pieces_group(c);
    let p = pieces(w);
    assert(p =~= seq![
        Piece::Group(a),
        Piece::Sep(Redir::Pipe),
        Piece::Group(b),
        Piece::Sep(Redir::Pipe),
        Piece::Group(c),
    ]);
    assert(token_of_piece(p[0], t[0]));
    assert(token_of_piece(p[1], t[1]));
    assert(token_of_piece(p[2], t[2]));
    assert(token_of_piece(p[3], t[3]));
    assert(token_of_piece(p[4], t[4]));
    assert(t.skip(2).skip(2) =~= t.skip(4));
    assert(t.skip(4) =~= seq![t[4]]);
    assert(t.skip(2)[0] == t[2]);
    assert(t.skip(2)[1] == t[3]);
    let inner = Expr::Pipe {
        left: Box::new(Expr::Cmd(t[2]->Cmd_0)),
        right: Box::new(Expr::Cmd(t[4]->Cmd_0)),
    };
    assert(parse_tokens(t.skip(4)) == Some(Some(Expr::Cmd(t[4]->Cmd_0))));
    assert(parse_tokens(t.skip(2)) == Some(Some(inner)));
}

/// A trailing `&` runs the command before it in the background with nothing
/// after it; `a & b` runs `a` in the background and `b` here.
pub proof fn lemma_fork_right_optional(a: Seq<Seq<char>>, b: Seq<Seq<char>>, t: Seq<Token>, u: Seq<
    Token,
>)
    requires
        a.len() > 0 && b.len() > 0,
        no_separator(a) && no_separator(b),
        tokens_of(pieces(a + seq!["&"@]), t),
        tokens_of(pieces(a + seq!["&"@] + b), u),
    ensures
        t.len() == 2,
        t[0] matches Token::Cmd(x) && classifies(a, Ok(x)),
        parse_tokens(t) == Some(Some(Expr::Fork { left: Box::new(Expr::Cmd(t[0]->Cmd_0)), right: None })),
        u.len() == 3,
        u[0] matches Token::Cmd(x) && classifies(a, Ok(x)),
        u[2] matches Token::Cmd(y) && classifies(b, Ok(y)),
        parse_tokens(u) == Some(
            Some(
                Expr::Fork {
                    left: Box::new(Expr::Cmd(u[0]->Cmd_0)),
                    right: Some(Box::new(Expr::Cmd(u[2]->Cmd_0))),
                },
            ),
        ),
{
    let amp: Seq<char> = "&"@;
    reveal_strlit("&");
    reveal_strlit("|");
    assert(amp[0] == '&' && "|"@[0] == '|');
    assert(amp != "|"@);
    assert(separator(amp) == Some(Redir::Fork));
    assert(a + seq![amp] =~= a + seq![amp] + Seq::<Seq<char>>::empty());
    lemma_pieces_group_sep(a, amp, Seq::empty());
    assert(pieces(Seq::<Seq<char>>::empty()) =~= Seq::<Piece>::empty());
    let p = pieces(a + seq![amp]);
    assert(p =~= seq![Piece::Group(a), Piece::Sep(Redir::Fork)]);
    assert(token_of_piece(p[0], t[0]));
    assert(token_of_piece(p[1], t[1]));
    assert(t.skip(2) =~= Seq::<Token>::empty());
    assert(parse_tokens(t.skip(2)) == Some(None::<Expr>));
    lemma_pieces_group_sep(a, amp, b);
    lemma_pieces_group(b);
    let q = pieces(a + seq![amp] + b);
    assert(q =~= seq![Piece::Group(a), Piece::Sep(Redir::Fork), Piece::Group(b)]);
    assert(token_of_piece(q[0], u[0]));
    assert(token_of_piece(q[1], u[1]));
    assert(token_of_piece(q[2], u[2]));
    assert(u.skip(2) =~= seq![u[2]]);
    assert(parse_tokens(u.skip(2)) == Some(Some(Expr::Cmd(u[2]->Cmd_0))));
}

} // verus!
