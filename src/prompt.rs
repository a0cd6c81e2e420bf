use vstd::prelude::*;
use crate::text::str_eq;

verus! {

/// The operator's verdict on one capability request.
#[derive(Clone, Copy, Debug, PartialEq, Eq, Structural)]
pub enum PromptResponse {
    Allow,
    Deny,
}

/// One pending capability check, described to the operator.
pub struct PromptRequest {
    /// Human-readable description of the request.
    pub message: String,
    /// Symbolic name of the capability (`filesystem-read`, `network`, ...).
    pub name: String,
    /// The API entry point that triggered the check, if known.
    pub api_name: Option<String>,
    /// Whether the check is for one concrete resource rather than the whole
    /// capability class.
    pub is_unary: bool,
}

/// Unicode `White_Space`, the set `char::is_whitespace` tests.
pub open spec fn is_space(c: char) -> bool {
    ('\u{9}' <= c && c <= '\u{d}') || c == ' ' || c == '\u{85}' || c == '\u{a0}'
        || c == '\u{1680}' || ('\u{2000}' <= c && c <= '\u{200a}') || c == '\u{2028}'
        || c == '\u{2029}' || c == '\u{202f}' || c == '\u{205f}' || c == '\u{3000}'
}

/// `s` without its leading white space.
pub open spec fn trim_start(s: Seq<char>) -> Seq<char>
    decreases s.len(),
{
    if s.len() > 0 && is_space(s[0]) {
        trim_start(s.drop_first())
    } else {
        s
    }
}

/// `s` without its trailing white space.
pub open spec fn trim_end(s: Seq<char>) -> Seq<char>
    decreases s.len(),
{
    if s.len() > 0 && is_space(s.last()) {
        trim_end(s.drop_last())
    } else {
        s
    }
}

/// `s` without leading and trailing white space.
pub open spec fn trim(s: Seq<char>) -> Seq<char> {
    trim_end(trim_start(s))
}

/// `c` is the letter `lower`, in either case.
pub open spec fn letter_is(c: char, lower: char, upper: char) -> bool {
    c == lower || c == upper
}

/// `t` is `y` or `yes`, in any mix of case.
pub open spec fn is_affirmative(t: Seq<char>) -> bool {
    (t.len() == 1 && letter_is(t[0], 'y', 'Y')) || (t.len() == 3 && letter_is(t[0], 'y', 'Y')
        && letter_is(t[1], 'e', 'E') && letter_is(t[2], 's', 'S'))
}

/// The decision for one answer line; `None` stands for a failed read.
pub open spec fn decision_of(answer: Option<Seq<char>>) -> PromptResponse {
    match answer {
        Some(a) => if is_affirmative(trim(a)) {
            PromptResponse::Allow
        } else {
            PromptResponse::Deny
        },
        None => PromptResponse::Deny,
    }
}

fn is_space_char(c: char) -> (r: bool)
    ensures
        r == is_space(c),
{
    ('\u{9}' <= c && c <= '\u{d}') || c == ' ' || c == '\u{85}' || c == '\u{a0}'
        || c == '\u{1680}' || ('\u{2000}' <= c && c <= '\u{200a}') || c == '\u{2028}'
        || c == '\u{2029}' || c == '\u{202f}' || c == '\u{205f}' || c == '\u{3000}'
}

proof fn lemma_trim_start_skip(s: Seq<char>, i: int)
    requires
        0 <= i < s.len(),
        is_space(s[i]),
    ensures
        trim_start(s.subrange(i, s.len() as int)) == trim_start(s.subrange(i + 1, s.len() as int)),
{
    assert(s.subrange(i, s.len() as int).drop_first() =~= s.subrange(i + 1, s.len() as int));
}

proof fn lemma_trim_end_skip(s: Seq<char>, j: int)
    requires
        0 < j <= s.len(),
        is_space(s[j - 1]),
    ensures
        trim_end(s.subrange(0, j)) == trim_end(s.subrange(0, j - 1)),
{
    assert(s.subrange(0, j).drop_last() =~= s.subrange(0, j - 1));
}

/// `s` with leading and trailing white space removed.
pub fn trim_str(s: &str) -> (r: &str)
    ensures
        r@ == trim(s@),
{
    let n = s.unicode_len();
    let mut a: usize = 0;
    assert(s@.subrange(0, n as int) =~= s@);
    while a < n && is_space_char(s.get_char(a))
        invariant
            n == s@.len(),
            a <= n,
            trim_start(s@) == trim_start(s@.subrange(a as int, n as int)),
        decreases n - a,
    {
        proof {
            lemma_trim_start_skip(s@, a as int);
        }
        a = a + 1;
    }
    let t = s.substring_char(a, n);
    assert(trim_start(s@) == t@);
    let m = t.unicode_len();
    let mut b: usize = m;
    assert(t@.subrange(0, m as int) =~= t@);
    while b > 0 && is_space_char(t.get_char(b - 1))
        invariant
            m == t@.len(),
            b <= m,
            trim_end(t@) == trim_end(t@.subrange(0, b as int)),
        decreases b,
    {
        proof {
            lemma_trim_end_skip(t@, b as int);
        }
        b = b - 1;
    }
    t.substring_char(0, b)
}

/// Turns one answer line into a decision: `y` or `yes` in any case, after
/// trimming white space, allows; anything else, and a failed read (`None`),
/// denies.
pub fn decide(answer: Option<&str>) -> (r: PromptResponse)
    ensures
        r == decision_of(
            match answer {
                Some(a) => Some(a@),
                None => None,
            },
        ),
{
    match answer {
        None => PromptResponse::Deny,
        Some(a) => {
            let t = trim_str(a);
            let n = t.unicode_len();
            if n == 1 {
                let c = t.get_char(0);
                if c == 'y' || c == 'Y' {
                    return PromptResponse::Allow;
                }
            } else if n == 3 {
                let c0 = t.get_char(0);
                let c1 = t.get_char(1);
                let c2 = t.get_char(2);
                if (c0 == 'y' || c0 == 'Y') && (c1 == 'e' || c1 == 'E') && (c2 == 's' || c2
                    == 'S') {
                    return PromptResponse::Allow;
                }
            }
            PromptResponse::Deny
        },
    }
}

/// The text shown to the operator for `req`.
pub open spec fn prompt_text(
    message: Seq<char>,
    name: Seq<char>,
    api_name: Option<Seq<char>>,
    is_unary: bool,
) -> Seq<char> {
    "Script is trying to access APIs and needs permission:\nMessage: "@ + message + "\nName: "@
        + name + "\nAPI: "@ + match api_name {
        Some(a) => a,
        None => "none"@,
    } + "\nIs unary: "@ + (if is_unary {
        "true"@
    } else {
        "false"@
    }) + "\nAllow? [y/n]"@
}

/// Renders the description of `req` that the operator answers.
pub fn render_prompt(req: &PromptRequest) -> (r: String)
    ensures
        r@ == prompt_text(
            req.message@,
            req.name@,
            match req.api_name {
                Some(a) => Some(a@),
                None => None,
            },
            req.is_unary,
        ),
{
    let mut out = String::from_str("Script is trying to access APIs and needs permission:\nMessage: ");
    out.append(req.message.as_str());
    out.append("\nName: ");
    out.append(req.name.as_str());
    out.append("\nAPI: ");
    match &req.api_name {
        Some(a) => out.append(a.as_str()),
        None => out.append("none"),
    }
    out.append("\nIs unary: ");
    if req.is_unary {
        out.append("true");
    } else {
        out.append("false");
    }
    out.append("\nAllow? [y/n]");
    out
}

/// Whatever the operator typed, an answer that is not `y` or `yes` (in any
/// case, trimmed) and a failed read both deny: the prompt fails closed.
pub proof fn prompt_fails_closed(answer: Option<Seq<char>>)
    ensures
        decision_of(answer) == PromptResponse::Allow <==> (answer is Some && is_affirmative(
            trim(answer->0),
        )),
{
}

proof fn lemma_trim_start_spaces(pre: Seq<char>, x: Seq<char>)
    requires
        forall|i: int| 0 <= i < pre.len() ==> is_space(#[trigger] pre[i]),
    ensures
        trim_start(pre + x) == trim_start(x),
    decreases pre.len(),
{
    if pre.len() > 0 {
        let rest = pre.drop_first();
        assert forall|i: int| 0 <= i < rest.len() implies is_space(#[trigger] rest[i]) by {
            assert(rest[i] == pre[i + 1]);
        }
        lemma_trim_start_spaces(rest, x);
        assert((pre + x)[0] == pre[0]);
        assert((pre + x).drop_first() =~= rest + x);
    } else {
        assert(pre + x =~= x);
    }
}

proof fn lemma_trim_end_spaces(x: Seq<char>, post: Seq<char>)
    requires
        forall|i: int| 0 <= i < post.len() ==> is_space(#[trigger] post[i]),
    ensures
        trim_end(x + post) == trim_end(x),
    decreases post.len(),
{
    if post.len() > 0 {
        let rest = post.drop_last();
        assert forall|i: int| 0 <= i < rest.len() implies is_space(#[trigger] rest[i]) by {
            assert(rest[i] == post[i]);
        }
        lemma_trim_end_spaces(x, rest);
        assert((x + post).last() == post[post.len() - 1]);
        assert((x + post).drop_last() =~= x + rest);
    } else {
        assert(x + post =~= x);
    }
}

/// White space around an answer does not change it: `pre + w + post`, with
/// `pre` and `post` all white space and `w` starting and ending with a
/// character that is not, trims to `w`; so each spelling of `y` or `yes`
/// allows however it is padded.
pub proof fn surrounding_space_is_ignored(pre: Seq<char>, w: Seq<char>, post: Seq<char>)
    requires
        forall|i: int| 0 <= i < pre.len() ==> is_space(#[trigger] pre[i]),
        forall|i: int| 0 <= i < post.len() ==> is_space(#[trigger] post[i]),
        w.len() > 0,
        !is_space(w[0]),
        !is_space(w.last()),
    ensures
        trim(pre + w + post) == w,
        decision_of(Some(pre + w + post)) == decision_of(Some(w)),
        is_affirmative(w) ==> decision_of(Some(pre + w + post)) == PromptResponse::Allow,
{
    assert(pre + w + post =~= pre + (w + post));
    lemma_trim_start_spaces(pre, w + post);
    assert((w + post)[0] == w[0]);
    lemma_trim_end_spaces(w, post);
    assert(trim(w) == w);
}

} // verus!
