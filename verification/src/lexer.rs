//! The executable tokenizer, verified against the model.
//!
//! [`lex`] performs one forward pass over the input: it splits the text
//! into lines, keeps the cross-line state (first-line flag, parent depth,
//! licensing stack) in a [`LexSt`], and appends tokens to one growing
//! vector. Its contract says that the result — token views on success,
//! the error on failure — is exactly [`lex_model`] of the input.

use crate::errors::YamlError;
use crate::model::{
    find_char, init_state, lex_line, lex_lines, lex_model, pop_deeper, rskip_spaces,
    scan_content, skip_spaces, split_lines_from, strip_cr, structural_tokens,
    LexState,
};
use crate::types::{views_of, Token, TokenModel};
use vstd::prelude::*;
use vstd::slice::slice_subrange;
use vstd::string::StrSliceExecFns;

verus! {

/// The cross-line state of one run, as the machine holds it.
struct LexSt {
    first: bool,
    parent: usize,
    licensed: Vec<usize>,
}

impl View for LexSt {
    type V = LexState;

    closed spec fn view(&self) -> LexState {
        LexState {
            first: self.first,
            parent: self.parent as int,
            licensed: self.licensed@.map_values(|d: usize| d as int),
        }
    }
}

proof fn lemma_views_push(tokens: Seq<Token>, t: Token)
    ensures
        views_of(tokens.push(t)) == views_of(tokens).push(t@),
{
    assert(views_of(tokens.push(t)) =~= views_of(tokens).push(t@));
}

/// The characters of `input`, in order, as a vector.
fn chars_of(input: &str) -> (chars: Vec<char>)
    ensures
        chars@ == input@,
{
    let n = input.unicode_len();
    let mut chars: Vec<char> = Vec::new();
    let mut i: usize = 0;
    while i < n
        invariant
            i <= n,
            n == input@.len(),
            chars@ == input@.take(i as int),
        decreases n - i,
    {
        chars.push(input.get_char(i));
        i = i + 1;
        proof {
            assert(chars@ =~= input@.take(i as int));
        }
    }
    proof {
        assert(chars@ =~= input@);
    }
    chars
}

/// The substring of `input` covering character positions `[from, to)`,
/// as an owned string.
fn substr(input: &str, from: usize, to: usize) -> (s: String)
    requires
        from <= to <= input@.len(),
    ensures
        s@ == input@.subrange(from as int, to as int),
{
    let sub = input.substring_char(from, to);
    sub.to_owned()
}

/// Scans a line's content `line[p..]` — after indentation and a possible
/// list marker — appending its tokens and applying its licensing effect,
/// exactly as [`scan_content`] says.
#[verifier::loop_isolation(false)]
fn scan_content_exec(
    line: &[char],
    input: &str,
    off: usize,
    p: usize,
    depth: usize,
    saw_list: bool,
    licensed: &mut Vec<usize>,
    res: &mut Vec<Token>,
) -> (err: Option<YamlError>)
    requires
        line@ == input@.subrange(off as int, off as int + line@.len()),
        off + line@.len() <= input@.len(),
        input@.len() <= usize::MAX,
        p <= line@.len(),
        depth < usize::MAX,
    ensures
        match scan_content(
            line@,
            p as int,
            depth as int,
            old(licensed)@.map_values(|d: usize| d as int),
            saw_list,
        ) {
            Ok(content) => err is None && final(licensed)@.map_values(|d: usize| d as int)
                == content.1 && views_of(final(res)@) == views_of(old(res)@) + content.0,
            Err(e) => err == Some(e),
        },
{
    let len = line.len();
    // comment truncation: content ends at the first '#'
    let mut q: usize = p;
    while q < len && line[q] != '#'
        invariant
            p <= q <= len,
            find_char(line@, '#', p as int, len as int) == find_char(
                line@,
                '#',
                q as int,
                len as int,
            ),
        decreases len - q,
    {
        q = q + 1;
    }
    proof {
        assert(find_char(line@, '#', p as int, len as int) == q);
    }
    // a tab anywhere before the comment is rejected
    let mut t: usize = p;
    while t < q && line[t] != '\t'
        invariant
            p <= t <= q,
            find_char(line@, '\t', p as int, q as int) == find_char(
                line@,
                '\t',
                t as int,
                q as int,
            ),
        decreases q - t,
    {
        t = t + 1;
    }
    if t < q {
        return Some(YamlError::InvalidIndentCharacter('\t'));
    }
    // the first colon splits key from value
    let mut r: usize = p;
    while r < q && line[r] != ':'
        invariant
            p <= r <= q,
            find_char(line@, ':', p as int, q as int) == find_char(
                line@,
                ':',
                r as int,
                q as int,
            ),
        decreases q - r,
    {
        r = r + 1;
    }
    proof {
        assert(find_char(line@, ':', p as int, q as int) == r);
    }
    let has_colon = r < q;
    let kend = if has_colon {
        r
    } else {
        q
    };
    // trim the key of surrounding spaces
    let mut ka: usize = p;
    while ka < kend && line[ka] == ' '
        invariant
            p <= ka <= kend,
            skip_spaces(line@, p as int, kend as int) == skip_spaces(
                line@,
                ka as int,
                kend as int,
            ),
        decreases kend - ka,
    {
        ka = ka + 1;
    }
    let mut kb: usize = kend;
    while kb > ka && line[kb - 1] == ' '
        invariant
            ka <= kb <= kend,
            rskip_spaces(line@, ka as int, kend as int) == rskip_spaces(
                line@,
                ka as int,
                kb as int,
            ),
        decreases kb - ka,
    {
        kb = kb - 1;
    }
    // trim the value of surrounding spaces
    let va: usize;
    let vb: usize;
    if has_colon {
        let mut a: usize = r + 1;
        while a < q && line[a] == ' '
            invariant
                r + 1 <= a <= q,
                skip_spaces(line@, r as int + 1, q as int) == skip_spaces(
                    line@,
                    a as int,
                    q as int,
                ),
            decreases q - a,
        {
            a = a + 1;
        }
        va = a;
        let mut b: usize = q;
        while b > va && line[b - 1] == ' '
            invariant
                va <= b <= q,
                rskip_spaces(line@, va as int, q as int) == rskip_spaces(
                    line@,
                    va as int,
                    b as int,
                ),
            decreases b - va,
        {
            b = b - 1;
        }
        vb = b;
    } else {
        va = q;
        vb = q;
    }
    if has_colon && ka == kb {
        return Some(YamlError::ColonWithNoKey);
    }
    if !has_colon && ka < kb && !saw_list {
        return Some(YamlError::KeyWithNoColon);
    }
    let ghost res0 = res@;
    let ghost key_seq = line@.subrange(ka as int, kb as int);
    let ghost value_seq = line@.subrange(va as int, vb as int);
    proof {
        assert(key_seq =~= input@.subrange((off + ka) as int, (off + kb) as int));
        assert(value_seq =~= input@.subrange((off + va) as int, (off + vb) as int));
    }
    if has_colon {
        let key = substr(input, off + ka, off + kb);
        res.push(Token::Identifier(key));
        proof {
            lemma_views_push(res0, Token::Identifier(key));
        }
        res.push(Token::Colon);
        proof {
            lemma_views_push(res0.push(Token::Identifier(key)), Token::Colon);
        }
    } else if ka < kb {
        let key = substr(input, off + ka, off + kb);
        res.push(Token::Identifier(key));
        proof {
            lemma_views_push(res0, Token::Identifier(key));
        }
    }
    let ghost res1 = res@;
    if va < vb {
        let value = substr(input, off + va, off + vb);
        res.push(Token::Identifier(value));
        proof {
            lemma_views_push(res1, Token::Identifier(value));
        }
    }
    if has_colon && va == vb {
        let ghost lic0 = licensed@;
        licensed.push(depth + 1);
        proof {
            assert(licensed@.map_values(|d: usize| d as int) =~= lic0.map_values(
                |d: usize| d as int,
            ).push(depth as int + 1));
        }
    }
    proof {
        let content = scan_content(
            line@,
            p as int,
            depth as int,
            old(licensed)@.map_values(|d: usize| d as int),
            saw_list,
        )->Ok_0;
        assert(views_of(res@) =~= views_of(res0) + content.0);
    }
    None
}

/// Lexes one line: indentation first, then structural tokens, then the
/// list-context decision, then the content, exactly as [`lex_line`]
/// says.
#[verifier::loop_isolation(false)]
fn lex_line_exec(
    line: &[char],
    input: &str,
    off: usize,
    st: &mut LexSt,
    res: &mut Vec<Token>,
) -> (err: Option<YamlError>)
    requires
        line@ == input@.subrange(off as int, off as int + line@.len()),
        off + line@.len() <= input@.len(),
        input@.len() <= usize::MAX,
    ensures
        match lex_line(line@, old(st)@) {
            Ok(step) => err is None && final(st)@ == step.1 && views_of(final(res)@) == views_of(
                old(res)@,
            ) + step.0,
            Err(e) => err == Some(e),
        },
{
    let len = line.len();
    if len == 0 {
        proof {
            assert(views_of(res@) =~= views_of(res@) + Seq::<TokenModel>::empty());
        }
        return None;
    }
    // measure the indentation
    let mut k: usize = 0;
    while k < len && line[k] == ' '
        invariant
            k <= len,
            skip_spaces(line@, 0, len as int) == skip_spaces(line@, k as int, len as int),
        decreases len - k,
    {
        k = k + 1;
    }
    proof {
        assert(skip_spaces(line@, 0, len as int) == k);
    }
    if st.first && k > 0 {
        return Some(YamlError::FirstLineNotZeroIndentation);
    }
    if k == len {
        // a line of spaces only is skipped
        st.first = false;
        proof {
            assert(views_of(res@) =~= views_of(res@) + Seq::<TokenModel>::empty());
        }
        return None;
    }
    let c = line[k];
    if c == '\t' {
        return Some(YamlError::InvalidIndentCharacter('\t'));
    }
    if c == '#' {
        // a comment-only line is skipped
        st.first = false;
        proof {
            assert(views_of(res@) =~= views_of(res@) + Seq::<TokenModel>::empty());
        }
        return None;
    }
    if k % 2 != 0 {
        return Some(YamlError::InvalidIndentation);
    }
    let depth = k / 2;
    if depth > st.parent && depth - st.parent > 1 {
        return Some(YamlError::InvalidIndentation);
    }
    let ghost st0 = st@;
    let ghost res0 = res@;
    let ghost structural = structural_tokens(st0.parent, depth as int);
    // emit the structural tokens
    let parent = st.parent;
    if depth < parent {
        let total = parent - depth;
        let mut m: usize = 0;
        proof {
            assert(views_of(res@) =~= views_of(res0) + Seq::new(
                m as nat,
                |x: int| TokenModel::Dedent,
            ));
        }
        while m < total
            invariant
                m <= total,
                views_of(res@) == views_of(res0) + Seq::new(m as nat, |x: int| TokenModel::Dedent),
            decreases total - m,
        {
            let ghost prev = res@;
            res.push(Token::Dedent);
            m = m + 1;
            proof {
                lemma_views_push(prev, Token::Dedent);
                assert(views_of(res@) =~= views_of(res0) + Seq::new(
                    m as nat,
                    |x: int| TokenModel::Dedent,
                ));
            }
        }
        proof {
            assert(Seq::new(total as nat, |x: int| TokenModel::Dedent) =~= structural);
        }
    } else if depth > parent {
        res.push(Token::Indent);
        proof {
            lemma_views_push(res0, Token::Indent);
            assert(views_of(res@) =~= views_of(res0) + structural);
        }
    } else {
        proof {
            assert(views_of(res@) =~= views_of(res0) + structural);
        }
    }
    // pop licensing entries deeper than this line
    while st.licensed.len() > 0 && st.licensed[st.licensed.len() - 1] > depth
        invariant
            st.first == st0.first,
            st.parent == st0.parent,
            pop_deeper(st0.licensed, depth as int) == pop_deeper(
                st.licensed@.map_values(|d: usize| d as int),
                depth as int,
            ),
        decreases st.licensed@.len(),
    {
        let ghost cur = st.licensed@;
        st.licensed.pop();
        proof {
            assert(st.licensed@.map_values(|d: usize| d as int) =~= cur.map_values(
                |d: usize| d as int,
            ).drop_last());
        }
    }
    proof {
        assert(pop_deeper(st0.licensed, depth as int) == st.licensed@.map_values(
            |d: usize| d as int,
        ));
    }
    st.first = false;
    st.parent = depth;
    let ghost res_pre = res@;
    let ghost lic_pre = st.licensed@.map_values(|d: usize| d as int);
    if c == '-' {
        let llen = st.licensed.len();
        if llen > 0 && st.licensed[llen - 1] == depth {
            res.push(Token::ListItem);
            proof {
                lemma_views_push(res_pre, Token::ListItem);
            }
            let ghost res_li = res@;
            let err = scan_content_exec(line, input, off, k + 1, depth, true, &mut st.licensed, res);
            match err {
                Some(e) => Some(e),
                None => {
                    proof {
                        let content = scan_content(
                            line@,
                            k as int + 1,
                            depth as int,
                            lic_pre,
                            true,
                        )->Ok_0;
                        assert(views_of(res@) =~= views_of(res0) + (structural + seq![
                            TokenModel::ListItem,
                        ] + content.0));
                    }
                    None
                },
            }
        } else {
            Some(YamlError::InvalidListItemPosition)
        }
    } else {
        let err = scan_content_exec(line, input, off, k, depth, false, &mut st.licensed, res);
        match err {
            Some(e) => Some(e),
            None => {
                proof {
                    let content = scan_content(line@, k as int, depth as int, lic_pre, false)->Ok_0;
                    assert(views_of(res@) =~= views_of(res0) + (structural + content.0));
                }
                None
            },
        }
    }
}

/// Tokenizes `input`.
///
/// On success the token views are exactly `lex_model(input@)`'s tokens;
/// on failure the error is exactly its error. In particular the run is a
/// pure function of the text: no state survives a call. No trailing
/// Dedent tokens are synthesized for blocks still open at end of stream;
/// closing them is the downstream tree builder's business.
#[verifier::loop_isolation(false)]
pub fn lex(input: &str) -> (result: Result<Vec<Token>, YamlError>)
    ensures
        match result {
            Ok(tokens) => lex_model(input@) == Ok::<Seq<TokenModel>, YamlError>(
                views_of(tokens@),
            ),
            Err(e) => lex_model(input@) == Err::<Seq<TokenModel>, YamlError>(e),
        },
{
    let chars = chars_of(input);
    let n = chars.len();
    let mut st = LexSt { first: true, parent: 0, licensed: Vec::new() };
    let mut res: Vec<Token> = Vec::new();
    proof {
        assert(st@.licensed =~= init_state().licensed);
        assert(st@ == init_state());
        assert(views_of(res@) =~= Seq::<TokenModel>::empty());
    }
    let mut i: usize = 0;
    while i < n
        invariant
            i <= n,
            match lex_lines(split_lines_from(input@, i as int), st@) {
                Ok(rest) => lex_model(input@) == Ok::<Seq<TokenModel>, YamlError>(
                    views_of(res@) + rest,
                ),
                Err(e) => lex_model(input@) == Err::<Seq<TokenModel>, YamlError>(e),
            },
        decreases n - i,
    {
        // the line runs to the next newline
        let mut j = i;
        while j < n && chars[j] != '\n'
            invariant
                i <= j <= n,
                find_char(input@, '\n', i as int, n as int) == find_char(
                    input@,
                    '\n',
                    j as int,
                    n as int,
                ),
            decreases n - j,
        {
            j = j + 1;
        }
        proof {
            assert(find_char(input@, '\n', i as int, n as int) == j);
        }
        // one trailing carriage return belongs to the line ending
        let line_end = if j < n && j > i && chars[j - 1] == '\r' {
            j - 1
        } else {
            j
        };
        let line = slice_subrange(chars.as_slice(), i, line_end);
        let ghost lines_here = split_lines_from(input@, i as int);
        proof {
            if j == n {
                assert(lines_here =~= seq![input@.subrange(i as int, j as int)]);
            } else {
                assert(strip_cr(input@.subrange(i as int, j as int)) =~= input@.subrange(
                    i as int,
                    line_end as int,
                ));
                assert(lines_here =~= seq![input@.subrange(i as int, line_end as int)]
                    + split_lines_from(input@, j as int + 1));
            }
            assert(lines_here[0] == line@);
            assert(line@ =~= input@.subrange(i as int, i as int + line@.len()));
        }
        let ghost st_pre = st@;
        let ghost res_pre = res@;
        let err = lex_line_exec(line, input, i, &mut st, &mut res);
        match err {
            Some(e) => {
                proof {
                    assert(lex_lines(lines_here, st_pre) == Err::<Seq<TokenModel>, YamlError>(e));
                }
                return Err(e);
            },
            None => {},
        }
        proof {
            let step = lex_line(line@, st_pre)->Ok_0;
            if j == n {
                assert(lines_here.drop_first() =~= Seq::<Seq<char>>::empty());
                assert(lex_lines(lines_here.drop_first(), st@) == Ok::<
                    Seq<TokenModel>,
                    YamlError,
                >(Seq::empty()));
                assert(step.0 + Seq::<TokenModel>::empty() =~= step.0);
            } else {
                assert(lines_here.drop_first() =~= split_lines_from(input@, j as int + 1));
            }
            match lex_lines(split_lines_from(input@, j as int + 1), st@) {
                Ok(rest2) => {
                    if j < n {
                        assert(views_of(res_pre) + (step.0 + rest2) =~= views_of(res@) + rest2);
                    }
                },
                Err(_) => {},
            }
        }
        if j == n {
            i = n;
            proof {
                assert(split_lines_from(input@, n as int) =~= Seq::<Seq<char>>::empty());
                let step = lex_line(line@, st_pre)->Ok_0;
                assert(views_of(res_pre) + step.0 =~= views_of(res@));
            }
        } else {
            i = j + 1;
        }
    }
    proof {
        assert(split_lines_from(input@, i as int) =~= Seq::<Seq<char>>::empty());
        assert(views_of(res@) + Seq::<TokenModel>::empty() =~= views_of(res@));
    }
    Ok(res)
}

} // verus!
