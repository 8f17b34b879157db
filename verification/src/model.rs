//! The mathematical model of the tokenizer.
//!
//! Everything the lexer does is defined here as specification functions
//! over character sequences: how input text splits into lines, how a
//! line's leading spaces become a depth, which Indent/Dedent tokens a
//! depth change owes, when a `-` may begin a block-sequence item, and how
//! a line's content splits into key, colon, value and comment. The
//! executable lexer is proved to return exactly [`lex_model`] of its
//! input.

use crate::errors::YamlError;
use crate::types::TokenModel;
use vstd::prelude::*;

verus! {

/// The smallest index in `[from, until)` at which `s` holds `c`, or
/// `until` when there is none.
pub open spec fn find_char(s: Seq<char>, c: char, from: int, until: int) -> int
    decreases until - from,
{
    if from >= until {
        until
    } else if s[from] == c {
        from
    } else {
        find_char(s, c, from + 1, until)
    }
}

/// The smallest index in `[from, until)` at which `s` holds a character
/// other than a space, or `until` when there is none.
pub open spec fn skip_spaces(s: Seq<char>, from: int, until: int) -> int
    decreases until - from,
{
    if from >= until {
        until
    } else if s[from] == ' ' {
        skip_spaces(s, from + 1, until)
    } else {
        from
    }
}

/// The end of `[from, until)` after dropping trailing spaces: the largest
/// index `b` in `[from, until]` with `b == from` or `s[b - 1]` not a
/// space.
pub open spec fn rskip_spaces(s: Seq<char>, from: int, until: int) -> int
    decreases until - from,
{
    if until <= from {
        from
    } else if s[until - 1] == ' ' {
        rskip_spaces(s, from, until - 1)
    } else {
        until
    }
}

pub proof fn lemma_find_char_bounds(s: Seq<char>, c: char, from: int, until: int)
    requires
        from <= until,
    ensures
        from <= find_char(s, c, from, until) <= until,
    decreases until - from,
{
    if from < until && s[from] != c {
        lemma_find_char_bounds(s, c, from + 1, until);
    }
}

pub proof fn lemma_skip_spaces_bounds(s: Seq<char>, from: int, until: int)
    requires
        from <= until,
    ensures
        from <= skip_spaces(s, from, until) <= until,
    decreases until - from,
{
    if from < until && s[from] == ' ' {
        lemma_skip_spaces_bounds(s, from + 1, until);
    }
}

/// One trailing carriage return dropped, as universal newline splitting
/// does for a line that ended in `'\n'`.
pub open spec fn strip_cr(line: Seq<char>) -> Seq<char> {
    if line.len() > 0 && line.last() == '\r' {
        line.drop_last()
    } else {
        line
    }
}

/// The lines of `s` from index `i` on: split at `'\n'`, each line whose
/// `'\n'` was found stripped of one trailing `'\r'`. A final segment
/// without a newline is a line of its own; input ending in `'\n'` has no
/// extra empty line after it.
pub open spec fn split_lines_from(s: Seq<char>, i: int) -> Seq<Seq<char>>
    decreases s.len() - i,
{
    if i < 0 || i >= s.len() {
        Seq::empty()
    } else {
        let j = find_char(s, '\n', i, s.len() as int);
        proof {
            lemma_find_char_bounds(s, '\n', i, s.len() as int);
        }
        if j == s.len() {
            seq![s.subrange(i, j)]
        } else {
            seq![strip_cr(s.subrange(i, j))] + split_lines_from(s, j + 1)
        }
    }
}

/// The lines of `s`, by universal newline splitting.
pub open spec fn split_lines(s: Seq<char>) -> Seq<Seq<char>> {
    split_lines_from(s, 0)
}

/// The cross-line state of a run.
pub ghost struct LexState {
    /// No non-empty line has been processed yet, so the next non-empty
    /// line must have depth zero.
    pub first: bool,
    /// Depth of the most recently processed structural line.
    pub parent: int,
    /// The list-context licensing stack: the depths at which a `-` may
    /// currently begin a block-sequence item. Only the top entry, when
    /// equal to a line's depth, licenses an item.
    pub licensed: Seq<int>,
}

/// The state at the start of a run.
pub open spec fn init_state() -> LexState {
    LexState { first: true, parent: 0, licensed: Seq::empty() }
}

/// `licensed` with every entry strictly deeper than `depth` popped:
/// those blocks have closed.
pub open spec fn pop_deeper(licensed: Seq<int>, depth: int) -> Seq<int>
    decreases licensed.len(),
{
    if licensed.len() > 0 && licensed.last() > depth {
        pop_deeper(licensed.drop_last(), depth)
    } else {
        licensed
    }
}

/// The structural tokens owed when depth moves from `parent` to `depth`:
/// one Dedent per level closed, exactly one Indent for an increase,
/// nothing for equal depth.
pub open spec fn structural_tokens(parent: int, depth: int) -> Seq<TokenModel> {
    if depth < parent {
        Seq::new((parent - depth) as nat, |i: int| TokenModel::Dedent)
    } else if depth > parent {
        seq![TokenModel::Indent]
    } else {
        Seq::empty()
    }
}

/// Tokens and licensing effect of a line's content `line[p..]`, scanned
/// after indentation (and a list marker, when `saw_list`) was consumed.
///
/// A `#` truncates the line; a tab anywhere before it is rejected. The
/// first `:` splits key from value; later colons are value content. Key
/// and value are trimmed of surrounding spaces. A colon needs a
/// non-empty key; a key without a colon is legal only as a list item's
/// scalar. A key line without an inline value licenses a block sequence
/// one level deeper.
pub open spec fn scan_content(
    line: Seq<char>,
    p: int,
    depth: int,
    licensed: Seq<int>,
    saw_list: bool,
) -> Result<(Seq<TokenModel>, Seq<int>), YamlError> {
    let q = find_char(line, '#', p, line.len() as int);
    if find_char(line, '\t', p, q) < q {
        Err(YamlError::InvalidIndentCharacter('\t'))
    } else {
        let r = find_char(line, ':', p, q);
        let has_colon = r < q;
        let kend = if has_colon {
            r
        } else {
            q
        };
        let ka = skip_spaces(line, p, kend);
        let kb = rskip_spaces(line, ka, kend);
        let va = if has_colon {
            skip_spaces(line, r + 1, q)
        } else {
            q
        };
        let vb = if has_colon {
            rskip_spaces(line, va, q)
        } else {
            q
        };
        if has_colon && ka == kb {
            Err(YamlError::ColonWithNoKey)
        } else if !has_colon && ka < kb && !saw_list {
            Err(YamlError::KeyWithNoColon)
        } else {
            let key_tokens = if has_colon {
                seq![
                    TokenModel::Identifier(line.subrange(ka, kb)),
                    TokenModel::Colon,
                ]
            } else if ka < kb {
                seq![TokenModel::Identifier(line.subrange(ka, kb))]
            } else {
                Seq::empty()
            };
            let value_tokens = if va < vb {
                seq![TokenModel::Identifier(line.subrange(va, vb))]
            } else {
                Seq::empty()
            };
            let licensed2 = if has_colon && va == vb {
                licensed.push(depth + 1)
            } else {
                licensed
            };
            Ok((key_tokens + value_tokens, licensed2))
        }
    }
}

/// Tokens and state change of one line.
///
/// An empty line is skipped and leaves the state untouched. A line of
/// spaces only, or one whose content is a comment, is skipped too, but
/// counts as a seen line. Otherwise the leading-space count must be even
/// and the depth may exceed the parent depth by at most one; the first
/// non-empty line must have no leading space at all. Structural tokens
/// come first, then a ListItem where a `-` stands at a licensed depth,
/// then the content tokens.
pub open spec fn lex_line(line: Seq<char>, st: LexState) -> Result<
    (Seq<TokenModel>, LexState),
    YamlError,
> {
    let len = line.len() as int;
    if len == 0 {
        Ok((Seq::empty(), st))
    } else {
        let n = skip_spaces(line, 0, len);
        if st.first && n > 0 {
            Err(YamlError::FirstLineNotZeroIndentation)
        } else if n == len {
            Ok((Seq::empty(), LexState { first: false, parent: st.parent, licensed: st.licensed }))
        } else if line[n] == '\t' {
            Err(YamlError::InvalidIndentCharacter('\t'))
        } else if line[n] == '#' {
            Ok((Seq::empty(), LexState { first: false, parent: st.parent, licensed: st.licensed }))
        } else if n % 2 != 0 {
            Err(YamlError::InvalidIndentation)
        } else {
            let depth = n / 2;
            if depth > st.parent && depth - st.parent > 1 {
                Err(YamlError::InvalidIndentation)
            } else {
                let structural = structural_tokens(st.parent, depth);
                let licensed = pop_deeper(st.licensed, depth);
                if line[n] == '-' {
                    if licensed.len() > 0 && licensed.last() == depth {
                        match scan_content(line, n + 1, depth, licensed, true) {
                            Ok(content) => Ok(
                                (
                                    structural + seq![TokenModel::ListItem] + content.0,
                                    LexState { first: false, parent: depth, licensed: content.1 },
                                ),
                            ),
                            Err(e) => Err(e),
                        }
                    } else {
                        Err(YamlError::InvalidListItemPosition)
                    }
                } else {
                    match scan_content(line, n, depth, licensed, false) {
                        Ok(content) => Ok(
                            (
                                structural + content.0,
                                LexState { first: false, parent: depth, licensed: content.1 },
                            ),
                        ),
                        Err(e) => Err(e),
                    }
                }
            }
        }
    }
}

/// Tokens of a run over `lines` starting in state `st`: the lines'
/// tokens in order, or the first error. No trailing Dedent tokens are
/// synthesized at end of stream; closing still-open blocks is left to
/// the downstream tree builder.
pub open spec fn lex_lines(lines: Seq<Seq<char>>, st: LexState) -> Result<Seq<TokenModel>, YamlError>
    decreases lines.len(),
{
    if lines.len() == 0 {
        Ok(Seq::empty())
    } else {
        match lex_line(lines[0], st) {
            Err(e) => Err(e),
            Ok(first) => match lex_lines(lines.drop_first(), first.1) {
                Err(e) => Err(e),
                Ok(rest) => Ok(first.0 + rest),
            },
        }
    }
}

/// The whole tokenization of `input`: every token of a successful run,
/// or its one terminal error.
pub open spec fn lex_model(input: Seq<char>) -> Result<Seq<TokenModel>, YamlError> {
    lex_lines(split_lines(input), init_state())
}

/// Count of Indent tokens in `tokens`.
pub open spec fn count_indents(tokens: Seq<TokenModel>) -> int
    decreases tokens.len(),
{
    if tokens.len() == 0 {
        0
    } else if tokens.last() is Indent {
        count_indents(tokens.drop_last()) + 1
    } else {
        count_indents(tokens.drop_last())
    }
}

/// Count of Dedent tokens in `tokens`.
pub open spec fn count_dedents(tokens: Seq<TokenModel>) -> int
    decreases tokens.len(),
{
    if tokens.len() == 0 {
        0
    } else if tokens.last() is Dedent {
        count_dedents(tokens.drop_last()) + 1
    } else {
        count_dedents(tokens.drop_last())
    }
}

/// No Indent or Dedent token occurs in `tokens`.
pub open spec fn depth_free(tokens: Seq<TokenModel>) -> bool {
    forall|k: int|
        0 <= k < tokens.len() ==> !(tokens[k] is Indent) && !(tokens[k] is Dedent)
}

proof fn lemma_counts_concat(a: Seq<TokenModel>, b: Seq<TokenModel>)
    ensures
        count_indents(a + b) == count_indents(a) + count_indents(b),
        count_dedents(a + b) == count_dedents(a) + count_dedents(b),
    decreases b.len(),
{
    if b.len() == 0 {
        assert(a + b =~= a);
    } else {
        lemma_counts_concat(a, b.drop_last());
        assert((a + b).drop_last() =~= a + b.drop_last());
        assert((a + b).last() == b.last());
    }
}

proof fn lemma_depth_free_counts(tokens: Seq<TokenModel>)
    requires
        depth_free(tokens),
    ensures
        count_indents(tokens) == 0,
        count_dedents(tokens) == 0,
    decreases tokens.len(),
{
    if tokens.len() > 0 {
        assert(depth_free(tokens.drop_last()));
        lemma_depth_free_counts(tokens.drop_last());
        assert(!(tokens[tokens.len() - 1] is Indent));
        assert(!(tokens[tokens.len() - 1] is Dedent));
    }
}

proof fn lemma_dedent_run_counts(m: nat)
    ensures
        count_indents(Seq::new(m, |x: int| TokenModel::Dedent)) == 0,
        count_dedents(Seq::new(m, |x: int| TokenModel::Dedent)) == m,
    decreases m,
{
    if m > 0 {
        lemma_dedent_run_counts((m - 1) as nat);
        assert(Seq::new(m, |x: int| TokenModel::Dedent).drop_last() =~= Seq::new(
            (m - 1) as nat,
            |x: int| TokenModel::Dedent,
        ));
    }
}

proof fn lemma_scan_content_depth_free(
    line: Seq<char>,
    p: int,
    depth: int,
    licensed: Seq<int>,
    saw_list: bool,
)
    requires
        scan_content(line, p, depth, licensed, saw_list) is Ok,
    ensures
        depth_free(scan_content(line, p, depth, licensed, saw_list)->Ok_0.0),
{
    let tokens = scan_content(line, p, depth, licensed, saw_list)->Ok_0.0;
    assert forall|k: int|
        0 <= k < tokens.len() implies !(tokens[k] is Indent) && !(tokens[k] is Dedent) by {
        assert(tokens[k] is Identifier || tokens[k] is Colon);
    }
}

proof fn lemma_line_depths(line: Seq<char>, st: LexState, i: int)
    requires
        st.parent >= 0,
        lex_line(line, st) is Ok,
        0 <= i <= lex_line(line, st)->Ok_0.0.len(),
    ensures
        lex_line(line, st)->Ok_0.1.parent >= 0,
        count_indents(lex_line(line, st)->Ok_0.0) - count_dedents(lex_line(line, st)->Ok_0.0)
            == lex_line(line, st)->Ok_0.1.parent - st.parent,
        st.parent + count_indents(lex_line(line, st)->Ok_0.0.take(i)) - count_dedents(
            lex_line(line, st)->Ok_0.0.take(i),
        ) >= 0,
{
    let toks = lex_line(line, st)->Ok_0.0;
    let st2 = lex_line(line, st)->Ok_0.1;
    let len = line.len() as int;
    if len == 0 || skip_spaces(line, 0, len) == len || line[skip_spaces(line, 0, len)] == '#' {
        assert(toks =~= Seq::<TokenModel>::empty());
        assert(toks.take(i) =~= Seq::<TokenModel>::empty());
    } else {
        let n = skip_spaces(line, 0, len);
        lemma_skip_spaces_bounds(line, 0, len);
        let depth = n / 2;
        let structural = structural_tokens(st.parent, depth);
        let licensed1 = pop_deeper(st.licensed, depth);
        let saw_list = line[n] == '-';
        let p = if saw_list {
            n + 1
        } else {
            n
        };
        let content = scan_content(line, p, depth, licensed1, saw_list)->Ok_0;
        let rest = if saw_list {
            seq![TokenModel::ListItem] + content.0
        } else {
            content.0
        };
        lemma_scan_content_depth_free(line, p, depth, licensed1, saw_list);
        assert(depth_free(rest));
        assert(toks =~= structural + rest);
        lemma_counts_concat(structural, rest);
        lemma_depth_free_counts(rest);
        if depth < st.parent {
            lemma_dedent_run_counts((st.parent - depth) as nat);
            assert(structural =~= Seq::new(
                (st.parent - depth) as nat,
                |x: int| TokenModel::Dedent,
            ));
            assert(count_dedents(structural) == st.parent - depth);
            assert(count_indents(structural) == 0);
        } else if depth > st.parent {
            assert(depth == st.parent + 1);
            assert(count_indents(Seq::<TokenModel>::empty()) == 0);
            assert(count_dedents(Seq::<TokenModel>::empty()) == 0);
            assert(structural.len() == 1 && structural.last() == TokenModel::Indent);
            assert(structural.drop_last() =~= Seq::<TokenModel>::empty());
            assert(count_indents(structural) == 1);
            assert(count_dedents(structural) == 0);
        } else {
            assert(structural =~= Seq::<TokenModel>::empty());
        }
        assert(count_indents(toks) - count_dedents(toks) == depth - st.parent);
        if i <= structural.len() {
            assert(toks.take(i) =~= structural.take(i));
            if depth < st.parent {
                assert(structural.take(i) =~= Seq::new(i as nat, |x: int| TokenModel::Dedent));
                lemma_dedent_run_counts(i as nat);
            } else if depth > st.parent {
                if i == 0 {
                    assert(structural.take(i) =~= Seq::<TokenModel>::empty());
                } else {
                    assert(structural.take(i) =~= structural);
                }
            } else {
                assert(structural.take(i) =~= Seq::<TokenModel>::empty());
            }
        } else {
            let tail = rest.take(i - structural.len());
            assert(depth_free(tail));
            assert(toks.take(i) =~= structural + tail);
            lemma_counts_concat(structural, tail);
            lemma_depth_free_counts(tail);
        }
    }
}

proof fn lemma_lines_depths(lines: Seq<Seq<char>>, st: LexState, i: int)
    requires
        st.parent >= 0,
        lex_lines(lines, st) is Ok,
        0 <= i <= lex_lines(lines, st)->Ok_0.len(),
    ensures
        st.parent + count_indents(lex_lines(lines, st)->Ok_0.take(i)) - count_dedents(
            lex_lines(lines, st)->Ok_0.take(i),
        ) >= 0,
    decreases lines.len(),
{
    let toks = lex_lines(lines, st)->Ok_0;
    if lines.len() == 0 {
        assert(toks.take(i) =~= Seq::<TokenModel>::empty());
    } else {
        let step = lex_line(lines[0], st)->Ok_0;
        let rest = lex_lines(lines.drop_first(), step.1)->Ok_0;
        assert(toks == step.0 + rest);
        if i <= step.0.len() {
            assert(toks.take(i) =~= step.0.take(i));
            lemma_line_depths(lines[0], st, i);
        } else {
            lemma_line_depths(lines[0], st, step.0.len() as int);
            lemma_lines_depths(lines.drop_first(), step.1, i - step.0.len());
            assert(toks.take(i) =~= step.0 + rest.take(i - step.0.len()));
            lemma_counts_concat(step.0, rest.take(i - step.0.len()));
        }
    }
}

/// Stack-consistent nesting: in a successful run, no prefix of the token
/// sequence holds more Dedent than Indent tokens. A Dedent only ever
/// returns toward a depth that an earlier Indent opened; the lexer never
/// emits more Dedents than are needed to reach a previously visited
/// depth.
pub proof fn lemma_dedents_never_exceed_indents(input: Seq<char>, i: int)
    requires
        lex_model(input) is Ok,
        0 <= i <= lex_model(input)->Ok_0.len(),
    ensures
        count_dedents(lex_model(input)->Ok_0.take(i)) <= count_indents(
            lex_model(input)->Ok_0.take(i),
        ),
{
    lemma_lines_depths(split_lines(input), init_state(), i);
}

/// Idempotence: the outcome of a run is a function of the input text
/// alone — there is no state across calls. Together with `lex`'s
/// contract, whose result always equals `lex_model` of its input,
/// re-tokenizing the same string yields an identical token sequence or
/// an identical error.
pub proof fn lemma_lex_deterministic(a: Seq<char>, b: Seq<char>)
    requires
        a == b,
    ensures
        lex_model(a) == lex_model(b),
{
}

} // verus!
