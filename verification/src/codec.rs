//! Response-file text codec: tokenizes text into a sequence of string
//! tokens and serializes a token sequence back into text.
//!
//! Tokenizing scans left to right with an `in_quotes` and an `escape_next`
//! flag: a backslash escapes the following character, which is emitted
//! literally; unescaped quotes toggle quoting and are never emitted;
//! unescaped whitespace outside quotes ends the current token; empty
//! tokens are dropped.  Serializing escapes each token independently
//! (tabs, quotes and backslashes get a backslash; a token holding a
//! space, tab or quote is wrapped in quotes) and joins tokens with single
//! spaces.  The two directions are intentionally asymmetric: the
//! serializer always doubles a backslash, while the tokenizer drops the
//! backslash before any escaped character and keeps the character.

use vstd::prelude::*;

use crate::chars::char_is_space;
use crate::chars::is_space_char;
use crate::strutil::push_char;
use vstd::string::StrSliceExecFns;
use vstd::string::StringExecFns;

verus! {

/// State of the tokenizer between two characters of the input.
pub ghost struct TokState {
    pub in_quotes: bool,
    pub escape_next: bool,
    pub cur: Seq<char>,
    pub out: Seq<Seq<char>>,
}

/// The state in which tokenizing starts.
pub open spec fn tok_init() -> TokState {
    TokState { in_quotes: false, escape_next: false, cur: Seq::empty(), out: Seq::empty() }
}

/// One character of input advances the tokenizer state.
pub open spec fn tok_step(st: TokState, c: char) -> TokState {
    if st.escape_next {
        TokState {
            in_quotes: st.in_quotes,
            escape_next: false,
            cur: st.cur.push(c),
            out: st.out,
        }
    } else if c == '\\' {
        TokState { in_quotes: st.in_quotes, escape_next: true, cur: st.cur, out: st.out }
    } else if c == '"' {
        TokState { in_quotes: !st.in_quotes, escape_next: st.escape_next, cur: st.cur, out: st.out }
    } else if is_space_char(c) && !st.in_quotes {
        if st.cur.len() > 0 {
            TokState {
                in_quotes: st.in_quotes,
                escape_next: st.escape_next,
                cur: Seq::empty(),
                out: st.out.push(st.cur),
            }
        } else {
            st
        }
    } else {
        TokState {
            in_quotes: st.in_quotes,
            escape_next: st.escape_next,
            cur: st.cur.push(c),
            out: st.out,
        }
    }
}

/// Runs the tokenizer over a whole character sequence.
pub open spec fn tok_run(s: Seq<char>, st: TokState) -> TokState
    decreases s.len(),
{
    if s.len() == 0 {
        st
    } else {
        tok_run(s.drop_first(), tok_step(st, s[0]))
    }
}

/// A pending token at end of input is flushed.
pub open spec fn tok_finish(st: TokState) -> Seq<Seq<char>> {
    if st.cur.len() > 0 {
        st.out.push(st.cur)
    } else {
        st.out
    }
}

/// The token sequence that response-file text denotes.
pub open spec fn tokenize_spec(s: Seq<char>) -> Seq<Seq<char>> {
    tok_finish(tok_run(s, tok_init()))
}

/// Running the tokenizer over a concatenation runs it over the parts in turn.
pub proof fn lemma_tok_run_append(a: Seq<char>, b: Seq<char>, st: TokState)
    ensures
        tok_run(a + b, st) == tok_run(b, tok_run(a, st)),
    decreases a.len(),
{
    if a.len() == 0 {
        assert(a + b =~= b);
    } else {
        assert((a + b).drop_first() =~= a.drop_first() + b);
        assert((a + b)[0] == a[0]);
        lemma_tok_run_append(a.drop_first(), b, tok_step(st, a[0]));
    }
}

/// How the serializer writes one character of a token.
pub open spec fn escape_char(c: char) -> Seq<char> {
    if c == '\t' {
        seq!['\\', 't']
    } else if c == '"' {
        seq!['\\', '"']
    } else if c == '\\' {
        seq!['\\', '\\']
    } else {
        seq![c]
    }
}

/// Characters that force the whole escaped token to be wrapped in quotes.
pub open spec fn quote_forcing(c: char) -> bool {
    c == ' ' || c == '\t' || c == '"'
}

/// The escaped form of a token, before any quote wrapping.
pub open spec fn escape_body(t: Seq<char>) -> Seq<char>
    decreases t.len(),
{
    if t.len() == 0 {
        Seq::empty()
    } else {
        escape_char(t[0]) + escape_body(t.drop_first())
    }
}

/// Whether the escaped token is wrapped in quotes.
pub open spec fn needs_quotes(t: Seq<char>) -> bool {
    exists|i: int| 0 <= i < t.len() && quote_forcing(t[i])
}

/// The serialized form of one token.
pub open spec fn escape_token(t: Seq<char>) -> Seq<char> {
    if needs_quotes(t) {
        seq!['"'] + escape_body(t) + seq!['"']
    } else {
        escape_body(t)
    }
}

/// The serialized forms of all tokens after the first, each preceded by
/// the single joining space.
pub open spec fn serialize_rest(ts: Seq<Seq<char>>) -> Seq<char>
    decreases ts.len(),
{
    if ts.len() == 0 {
        Seq::empty()
    } else {
        seq![' '] + escape_token(ts[0]) + serialize_rest(ts.drop_first())
    }
}

/// The response-file text that a token sequence serializes to.
pub open spec fn serialize_spec(ts: Seq<Seq<char>>) -> Seq<char> {
    if ts.len() == 0 {
        Seq::empty()
    } else {
        escape_token(ts[0]) + serialize_rest(ts.drop_first())
    }
}

/// Escaping a concatenation escapes the parts in turn.
pub proof fn lemma_escape_body_append(a: Seq<char>, b: Seq<char>)
    ensures
        escape_body(a + b) == escape_body(a) + escape_body(b),
    decreases a.len(),
{
    if a.len() == 0 {
        assert(a + b =~= b);
        assert(escape_body(a) + escape_body(b) =~= escape_body(b));
    } else {
        assert((a + b).drop_first() =~= a.drop_first() + b);
        assert((a + b)[0] == a[0]);
        lemma_escape_body_append(a.drop_first(), b);
        assert(escape_char(a[0]) + (escape_body(a.drop_first()) + escape_body(b)) =~= (escape_char(
            a[0],
        ) + escape_body(a.drop_first())) + escape_body(b));
    }
}

/// Carriage-return/line-feed pairs become single line feeds.
pub open spec fn normalize_spec(s: Seq<char>) -> Seq<char>
    decreases s.len(),
{
    if s.len() == 0 {
        Seq::empty()
    } else if s.len() >= 2 && s[0] == '\r' && s[1] == '\n' {
        seq!['\n'] + normalize_spec(s.skip(2))
    } else {
        seq![s[0]] + normalize_spec(s.drop_first())
    }
}

/// Tokenizes response-file text, already normalized, into its tokens.
pub fn tokenize(text: &str) -> (r: Vec<String>)
    ensures
        r.deep_view() == tokenize_spec(text@),
{
    let n: usize = text.unicode_len();
    let mut out: Vec<String> = Vec::new();
    let mut cur: String = String::new();
    let mut in_quotes: bool = false;
    let mut escape_next: bool = false;
    let mut i: usize = 0;
    while i < n
        invariant
            n == text@.len(),
            i <= n,
            ({
                let st = tok_run(text@.subrange(0, i as int), tok_init());
                st.in_quotes == in_quotes && st.escape_next == escape_next && st.cur == cur@
                    && st.out == out.deep_view()
            }),
        decreases n - i,
    {
        let c = text.get_char(i);
        proof {
            let pre = text@.subrange(0, i as int);
            lemma_tok_run_append(pre, seq![c], tok_init());
            assert(text@.subrange(0, i + 1 as int) =~= pre + seq![c]);
            let st0 = tok_run(pre, tok_init());
            assert(seq![c].drop_first() =~= Seq::<char>::empty());
            assert(seq![c][0] == c);
            assert(tok_run(Seq::<char>::empty(), tok_step(st0, c)) == tok_step(st0, c));
            assert(tok_run(seq![c], st0) == tok_run(seq![c].drop_first(), tok_step(st0, c)));
            assert(tok_run(seq![c], st0) == tok_step(st0, c));
        }
        if escape_next {
            push_char(&mut cur, c);
            escape_next = false;
        } else if c == '\\' {
            escape_next = true;
        } else if c == '"' {
            in_quotes = !in_quotes;
        } else if char_is_space(c) && !in_quotes {
            if !cur.as_str().is_empty() {
                let ghost old_out = out.deep_view();
                let ghost flushed = cur@;
                out.push(cur);
                cur = String::new();
                proof {
                    assert(out.deep_view() =~= old_out.push(flushed));
                }
            }
        } else {
            push_char(&mut cur, c);
        }
        i += 1;
    }
    proof {
        assert(text@.subrange(0, n as int) =~= text@);
    }
    if !cur.as_str().is_empty() {
        let ghost old_out = out.deep_view();
        let ghost flushed = cur@;
        out.push(cur);
        proof {
            assert(out.deep_view() =~= old_out.push(flushed));
        }
    }
    out
}

/// Normalizes line endings: every `\r\n` pair becomes a single `\n`.
pub fn normalize_line_endings(text: &str) -> (r: String)
    ensures
        r@ == normalize_spec(text@),
{
    let n: usize = text.unicode_len();
    let mut r: String = String::new();
    proof {
        assert(text@.skip(0) =~= text@);
        assert(Seq::<char>::empty() + normalize_spec(text@) =~= normalize_spec(text@));
    }
    let mut i: usize = 0;
    while i < n
        invariant
            n == text@.len(),
            i <= n,
            normalize_spec(text@) == r@ + normalize_spec(text@.skip(i as int)),
        decreases n - i,
    {
        let ghost rest = text@.skip(i as int);
        let c = text.get_char(i);
        assert(rest[0] == c);
        if c == '\r' && i + 1 < n && text.get_char(i + 1) == '\n' {
            assert(rest[1] == '\n');
            push_char(&mut r, '\n');
            proof {
                assert(rest.skip(2) =~= text@.skip(i + 2 as int));
                assert(r@ + normalize_spec(text@.skip(i + 2 as int)) =~= (r@.drop_last() + seq![
                    '\n',
                ]) + normalize_spec(rest.skip(2)));
                assert(r@.drop_last() + (seq!['\n'] + normalize_spec(rest.skip(2))) =~= (
                r@.drop_last() + seq!['\n']) + normalize_spec(rest.skip(2)));
            }
            i += 2;
        } else {
            push_char(&mut r, c);
            proof {
                assert(rest.drop_first() =~= text@.skip(i + 1 as int));
                assert(r@ + normalize_spec(text@.skip(i + 1 as int)) =~= (r@.drop_last() + seq![c])
                    + normalize_spec(rest.drop_first()));
                assert(r@.drop_last() + (seq![c] + normalize_spec(rest.drop_first())) =~= (
                r@.drop_last() + seq![c]) + normalize_spec(rest.drop_first()));
            }
            i += 1;
        }
    }
    proof {
        assert(text@.skip(n as int) =~= Seq::<char>::empty());
        assert(r@ + normalize_spec(Seq::<char>::empty()) =~= r@);
    }
    r
}

/// Normalizes and tokenizes raw response-file text as read from disk.
pub fn parse_response_text(text: &str) -> (r: Vec<String>)
    ensures
        r.deep_view() == tokenize_spec(normalize_spec(text@)),
{
    let normalized = normalize_line_endings(text);
    tokenize(normalized.as_str())
}

/// Serializes one token, escaping and quoting as the codec prescribes.
pub fn escape(token: &str) -> (r: String)
    ensures
        r@ == escape_token(token@),
{
    let n: usize = token.unicode_len();
    let mut quotes: bool = false;
    let mut j: usize = 0;
    while j < n
        invariant
            n == token@.len(),
            j <= n,
            quotes == exists|k: int| 0 <= k < j && quote_forcing(token@[k]),
        decreases n - j,
    {
        let c = token.get_char(j);
        if c == ' ' || c == '\t' || c == '"' {
            quotes = true;
        }
        j += 1;
    }
    assert(quotes == needs_quotes(token@));
    let mut r: String = String::new();
    if quotes {
        push_char(&mut r, '"');
    }
    let ghost head: Seq<char> = r@;
    let mut i: usize = 0;
    while i < n
        invariant
            n == token@.len(),
            i <= n,
            r@ == head + escape_body(token@.subrange(0, i as int)),
        decreases n - i,
    {
        let c = token.get_char(i);
        if c == '\t' {
            push_char(&mut r, '\\');
            push_char(&mut r, 't');
        } else if c == '"' {
            push_char(&mut r, '\\');
            push_char(&mut r, '"');
        } else if c == '\\' {
            push_char(&mut r, '\\');
            push_char(&mut r, '\\');
        } else {
            push_char(&mut r, c);
        }
        proof {
            let pre = token@.subrange(0, i as int);
            lemma_escape_body_append(pre, seq![c]);
            assert(token@.subrange(0, i + 1 as int) =~= pre + seq![c]);
            assert(seq![c].drop_first() =~= Seq::<char>::empty());
            assert(seq![c][0] == c);
            assert(escape_body(Seq::<char>::empty()) =~= Seq::<char>::empty());
            assert(escape_body(seq![c]) == escape_char(c) + escape_body(seq![c].drop_first()));
            assert(escape_char(c) + Seq::<char>::empty() =~= escape_char(c));
            assert(escape_body(seq![c]) =~= escape_char(c));
            assert(r@ =~= head + (escape_body(pre) + escape_char(c)));
        }
        i += 1;
    }
    proof {
        assert(token@.subrange(0, n as int) =~= token@);
    }
    if quotes {
        push_char(&mut r, '"');
        proof {
            assert(head =~= seq!['"']);
            assert(r@ =~= seq!['"'] + escape_body(token@) + seq!['"']);
        }
    } else {
        proof {
            assert(head =~= Seq::<char>::empty());
            assert(r@ =~= escape_body(token@));
        }
    }
    r
}

/// Serializes a token sequence: escaped tokens joined by single spaces.
pub fn serialize(tokens: &Vec<String>) -> (r: String)
    ensures
        r@ == serialize_spec(tokens.deep_view()),
{
    let ghost tv = tokens.deep_view();
    let mut r: String = String::new();
    if tokens.len() == 0 {
        return r;
    }
    let first = escape(tokens[0].as_str());
    r.append(first.as_str());
    let mut i: usize = 1;
    while i < tokens.len()
        invariant
            1 <= i <= tokens.len(),
            tv == tokens.deep_view(),
            tv.len() == tokens.len(),
            serialize_spec(tv) == r@ + serialize_rest(tv.skip(i as int)),
        decreases tokens.len() - i,
    {
        let ghost rest = tv.skip(i as int);
        let esc = escape(tokens[i].as_str());
        push_char(&mut r, ' ');
        r.append(esc.as_str());
        proof {
            assert(rest[0] == tv[i as int]);
            assert(rest.drop_first() =~= tv.skip(i + 1 as int));
            assert(r@ =~= (r@.subrange(0, r@.len() - 1 - esc@.len()) + seq![' ']) + esc@);
            assert(r@.subrange(0, r@.len() - 1 - esc@.len()) + (seq![' '] + escape_token(
                tv[i as int],
            ) + serialize_rest(rest.drop_first())) =~= ((r@.subrange(
                0,
                r@.len() - 1 - esc@.len(),
            ) + seq![' ']) + esc@) + serialize_rest(tv.skip(i + 1 as int)));
        }
        i += 1;
    }
    proof {
        assert(tv.skip(tokens.len() as int) =~= Seq::<Seq<char>>::empty());
        assert(r@ + serialize_rest(Seq::<Seq<char>>::empty()) =~= r@);
    }
    r
}

proof fn lemma_tok_run_out_nonempty(s: Seq<char>, st: TokState)
    requires
        forall|j: int| 0 <= j < st.out.len() ==> st.out[j].len() > 0,
    ensures
        forall|j: int| 0 <= j < tok_run(s, st).out.len() ==> tok_run(s, st).out[j].len() > 0,
    decreases s.len(),
{
    if s.len() > 0 {
        let st2 = tok_step(st, s[0]);
        assert forall|j: int| 0 <= j < st2.out.len() implies st2.out[j].len() > 0 by {
            if j < st.out.len() {
                assert(st.out[j].len() > 0);
            }
        }
        lemma_tok_run_out_nonempty(s.drop_first(), st2);
        assert(tok_run(s, st) == tok_run(s.drop_first(), st2));
    }
}

/// Tokenizing drops empty tokens: whatever the text, every token that
/// comes out is nonempty.
pub proof fn lemma_tokenize_tokens_nonempty(s: Seq<char>)
    ensures
        forall|j: int| 0 <= j < tokenize_spec(s).len() ==> tokenize_spec(s)[j].len() > 0,
{
    lemma_tok_run_out_nonempty(s, tok_init());
}

/// A token that survives the serialize/tokenize round trip: nonempty,
/// and every character is either a plain space or not whitespace at all.
/// A tab is serialized as backslash-`t`, which tokenizes back to a plain
/// `t`, and an unquoted token's other whitespace is written verbatim and
/// then splits it, so such tokens are left out.
pub open spec fn token_round_trips(t: Seq<char>) -> bool {
    t.len() > 0 && forall|i: int| 0 <= i < t.len() ==> (t[i] == ' ' || !is_space_char(t[i]))
}

proof fn lemma_tok_run1(a: char, st: TokState)
    ensures
        tok_run(seq![a], st) == tok_step(st, a),
{
    assert(seq![a].drop_first() =~= Seq::<char>::empty());
    assert(seq![a][0] == a);
    assert(tok_run(Seq::<char>::empty(), tok_step(st, a)) == tok_step(st, a));
    assert(tok_run(seq![a], st) == tok_run(seq![a].drop_first(), tok_step(st, a)));
}

proof fn lemma_tok_run2(a: char, b: char, st: TokState)
    ensures
        tok_run(seq![a, b], st) == tok_step(tok_step(st, a), b),
{
    assert(seq![a, b].drop_first() =~= seq![b]);
    assert(seq![a, b][0] == a);
    assert(tok_run(seq![a, b], st) == tok_run(seq![b], tok_step(st, a)));
    lemma_tok_run1(b, tok_step(st, a));
}

proof fn lemma_tok_run_escape_char(c: char, st: TokState)
    requires
        !st.escape_next,
        c == ' ' ==> st.in_quotes,
        c == ' ' || !is_space_char(c),
    ensures
        tok_run(escape_char(c), st) == (TokState {
            in_quotes: st.in_quotes,
            escape_next: false,
            cur: st.cur.push(c),
            out: st.out,
        }),
{
    if c == '"' || c == '\\' {
        lemma_tok_run2('\\', c, st);
    } else {
        lemma_tok_run1(c, st);
    }
}

proof fn lemma_tok_run_escape_body(t: Seq<char>, st: TokState)
    requires
        !st.escape_next,
        forall|i: int| 0 <= i < t.len() ==> (t[i] == ' ' || !is_space_char(t[i])),
        !st.in_quotes ==> forall|i: int| 0 <= i < t.len() ==> t[i] != ' ',
    ensures
        tok_run(escape_body(t), st) == (TokState {
            in_quotes: st.in_quotes,
            escape_next: false,
            cur: st.cur + t,
            out: st.out,
        }),
    decreases t.len(),
{
    if t.len() == 0 {
        assert(escape_body(t) =~= Seq::<char>::empty());
        assert(st.cur + t =~= st.cur);
    } else {
        lemma_tok_run_append(escape_char(t[0]), escape_body(t.drop_first()), st);
        lemma_tok_run_escape_char(t[0], st);
        let st1 = TokState {
            in_quotes: st.in_quotes,
            escape_next: false,
            cur: st.cur.push(t[0]),
            out: st.out,
        };
        lemma_tok_run_escape_body(t.drop_first(), st1);
        assert(st.cur.push(t[0]) + t.drop_first() =~= st.cur + t);
    }
}

proof fn lemma_tok_run_escape_token(t: Seq<char>, st: TokState)
    requires
        !st.escape_next,
        !st.in_quotes,
        forall|i: int| 0 <= i < t.len() ==> (t[i] == ' ' || !is_space_char(t[i])),
    ensures
        tok_run(escape_token(t), st) == (TokState {
            in_quotes: false,
            escape_next: false,
            cur: st.cur + t,
            out: st.out,
        }),
{
    if needs_quotes(t) {
        lemma_tok_run_append(seq!['"'] + escape_body(t), seq!['"'], st);
        lemma_tok_run_append(seq!['"'], escape_body(t), st);
        lemma_tok_run1('"', st);
        let st1 = TokState {
            in_quotes: true,
            escape_next: false,
            cur: st.cur,
            out: st.out,
        };
        lemma_tok_run_escape_body(t, st1);
        let st2 = TokState {
            in_quotes: true,
            escape_next: false,
            cur: st.cur + t,
            out: st.out,
        };
        lemma_tok_run1('"', st2);
    } else {
        assert forall|i: int| 0 <= i < t.len() implies t[i] != ' ' by {
            if t[i] == ' ' {
                assert(quote_forcing(t[i]));
            }
        }
        lemma_tok_run_escape_body(t, st);
    }
}

proof fn lemma_tok_run_serialize_rest(ts: Seq<Seq<char>>, st: TokState)
    requires
        !st.escape_next,
        !st.in_quotes,
        st.cur.len() > 0,
        forall|j: int| 0 <= j < ts.len() ==> token_round_trips(ts[j]),
    ensures
        tok_finish(tok_run(serialize_rest(ts), st)) == st.out.push(st.cur) + ts,
    decreases ts.len(),
{
    if ts.len() == 0 {
        assert(serialize_rest(ts) =~= Seq::<char>::empty());
        assert(tok_finish(st) =~~= st.out.push(st.cur) + ts);
    } else {
        assert(token_round_trips(ts[0]));
        lemma_tok_run_append(seq![' '] + escape_token(ts[0]), serialize_rest(ts.drop_first()), st);
        lemma_tok_run_append(seq![' '], escape_token(ts[0]), st);
        lemma_tok_run1(' ', st);
        let st1 = TokState {
            in_quotes: false,
            escape_next: false,
            cur: Seq::empty(),
            out: st.out.push(st.cur),
        };
        assert(tok_step(st, ' ') == st1);
        lemma_tok_run_escape_token(ts[0], st1);
        let st2 = TokState {
            in_quotes: false,
            escape_next: false,
            cur: Seq::<char>::empty() + ts[0],
            out: st.out.push(st.cur),
        };
        assert(st2.cur =~= ts[0]);
        lemma_tok_run_serialize_rest(ts.drop_first(), st2);
        assert(st.out.push(st.cur).push(st2.cur) + ts.drop_first() =~~= st.out.push(st.cur) + ts);
    }
}

/// The round trip: serializing a sequence of round-trip-safe tokens and
/// tokenizing the result yields the sequence unchanged.
pub proof fn lemma_tokenize_serialize_round_trip(ts: Seq<Seq<char>>)
    requires
        forall|j: int| 0 <= j < ts.len() ==> token_round_trips(ts[j]),
    ensures
        tokenize_spec(serialize_spec(ts)) == ts,
{
    if ts.len() == 0 {
        assert(tokenize_spec(serialize_spec(ts)) =~~= ts);
    } else {
        assert(token_round_trips(ts[0]));
        lemma_tok_run_append(escape_token(ts[0]), serialize_rest(ts.drop_first()), tok_init());
        lemma_tok_run_escape_token(ts[0], tok_init());
        let st1 = TokState {
            in_quotes: false,
            escape_next: false,
            cur: Seq::<char>::empty() + ts[0],
            out: Seq::empty(),
        };
        assert(st1.cur =~= ts[0]);
        lemma_tok_run_serialize_rest(ts.drop_first(), st1);
        assert(Seq::<Seq<char>>::empty().push(ts[0]) + ts.drop_first() =~~= ts);
    }
}

/// Idempotence under re-tokenization: serializing what a text
/// tokenizes to, and tokenizing again, yields the same tokens --
/// whenever every token holds only spaces and non-whitespace, the sole
/// shapes the serializer can quote.  A byte-for-byte round trip of the
/// text itself is not promised: whitespace style, unneeded quoting and
/// backslash doubling are not preserved.
pub proof fn lemma_retokenize_idempotent(t: Seq<char>)
    requires
        forall|j: int, i: int|
            0 <= j < tokenize_spec(t).len() && 0 <= i < tokenize_spec(t)[j].len() ==> (
            #[trigger] tokenize_spec(t)[j][i] == ' ' || !is_space_char(tokenize_spec(t)[j][i])),
    ensures
        tokenize_spec(serialize_spec(tokenize_spec(t))) == tokenize_spec(t),
{
    lemma_tokenize_tokens_nonempty(t);
    assert forall|j: int| 0 <= j < tokenize_spec(t).len() implies token_round_trips(
        #[trigger] tokenize_spec(t)[j],
    ) by {
        assert(tokenize_spec(t)[j].len() > 0);
    }
    lemma_tokenize_serialize_round_trip(tokenize_spec(t));
}

} // verus!
