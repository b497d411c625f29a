use vstd::prelude::*;
use vstd::std_specs::iter::IteratorSpec;
use crate::tokens::{is_space, is_space_spec};

verus! {

/// The fixed head of every scoring prompt: the grading rubric and the
/// required answer shape. The rendered variant blocks follow it.
pub const EVAL_PREAMBLE: &'static str = "You are an expert evaluator.

For every answer below, assess it against **ten metrics**. Each metric must be scored on a 0-10 integer scale (higher is better).

Metrics (use **exact** order):
1. Task Fulfilment / Relevance - Does it respond to every part of the prompt? Did it wander off-topic or over-answer?
2. Usefulness & Actionability - Does it translate abstract ideas into concrete advice, examples, or next steps?
3. Factual Accuracy & Verifiabiliy - Are the statements factually correct (no hallucinations)? If it cites sources or internal steps, do those match the final claims?
4. Efficiency / Depth & Completeness - Does it avoid unnecessary verbosity or excessive brevity? Does it cover the key angles, edge-cases, and typical follow-ups? Could the user act on it without having to ask \u{201c}what about X?\u{201d}
5. Reasoning Quality / Transparency - Are the steps implicitly or explicitly sound? If uncertain, does it flag that uncertainty instead of bluffing?
6. Tone & Likeability - Is the style friendly and respectful, matching the user\u{2019}s vibe? Would you enjoy a longer conversation in this voice?
7. Adaptation to Context - Does it use any relevant info the user has shared (location, preferences, prior messages) appropriately?
8. Safety & Bias Avoidance - Does it steer clear of harmful or disallowed content? Does it acknowledge and mitigate possible bias?
9. Structure & Formatting & UX Extras - Is the writing logically ordered and easy to skim? Are lists, code blocks, tables, or rich widgets used when, but only when they genuinely improve readability or utility?
10. Creativity - Does the answer make clever, non-obvious connections that you wouldn\u{2019}t get from a quick Google search? Or, does it remix ideas, metaphors, or examples in a fresh way rather than serving boilerplate?

Return *only* valid JSON (no markdown, no code fences) where each key maps to an array of ten integers 0-10.
The returned JSON must confirm to this Pydantic model:

```python
from typing import Dict, List
from pydantic import BaseModel, conlist

class EvalResult(BaseModel):
    __root__: Dict[str, conlist(int, min_items=10, max_items=10)]
```

Begin data to evaluate:

";

/// The full scoring prompt for a section of rendered variant blocks.
pub open spec fn eval_prompt_text(section: Seq<char>) -> Seq<char> {
    EVAL_PREAMBLE@ + section + "\n"@
}

/// The block that presents one variant to the grader.
pub open spec fn block_text(key: Seq<char>, instruction: Seq<char>, answer: Seq<char>) -> Seq<
    char,
> {
    "### "@ + key + "\n[Instruction]\n"@ + instruction + "\n\n[Answer]\n"@ + answer + "\n\n"@
}

/// Builds the scoring prompt: the rubric, then the variant blocks.
pub fn build_eval_prompt(section: &str) -> (r: String)
    ensures
        r@ == eval_prompt_text(section@),
{
    let mut s = String::from_str(EVAL_PREAMBLE);
    s.append(section);
    s.append("\n");
    s
}

/// Renders one variant: its key, its instruction and its candidate answer.
pub fn render_block(key: &str, instruction: &str, answer: &str) -> (r: String)
    ensures
        r@ == block_text(key@, instruction@, answer@),
{
    let mut s = String::from_str("### ");
    s.append(key);
    s.append("\n[Instruction]\n");
    s.append(instruction);
    s.append("\n\n[Answer]\n");
    s.append(answer);
    s.append("\n\n");
    s
}

/// The characters of `s`, in order.
pub fn chars_of(s: &str) -> (r: Vec<char>)
    ensures
        r@ == s@,
{
    broadcast use vstd::string::axiom_spec_iter;

    let ghost t = s@;
    let mut v: Vec<char> = Vec::new();
    let mut it = s.chars();
    assert(t.skip(0) =~= t);
    loop
        invariant
            it.remaining() == t.skip(v@.len() as int),
            v@ == t.take(v@.len() as int),
            v@.len() <= t.len(),
        ensures
            v@ == t,
        decreases t.len() - v@.len(),
    {
        match it.next() {
            Some(c) => {
                proof {
                    assert(t.skip(v@.len() as int).len() > 0);
                    assert(t.skip(v@.len() as int).drop_first() =~= t.skip(v@.len() as int + 1));
                }
                v.push(c);
                proof {
                    assert(v@ =~= t.take(v@.len() as int));
                }
            },
            None => {
                assert(t.skip(v@.len() as int).len() == 0);
                assert(v@ =~= t);
                break ;
            },
        }
    }
    v
}

/// `s` with every leading repetition of the non-empty pattern `p` removed.
pub open spec fn strip_repeated(s: Seq<char>, p: Seq<char>) -> Seq<char>
    decreases s.len(),
{
    if p.len() > 0 && p.len() <= s.len() && s.take(p.len() as int) == p {
        strip_repeated(s.skip(p.len() as int), p)
    } else {
        s
    }
}

/// `s` without its leading whitespace.
pub open spec fn trim_start(s: Seq<char>) -> Seq<char>
    decreases s.len(),
{
    if s.len() > 0 && is_space_spec(s[0]) {
        trim_start(s.skip(1))
    } else {
        s
    }
}

/// `s` without its trailing whitespace.
pub open spec fn trim_end(s: Seq<char>) -> Seq<char>
    decreases s.len(),
{
    if s.len() > 0 && is_space_spec(s.last()) {
        trim_end(s.drop_last())
    } else {
        s
    }
}

pub const RESPONSE_MARK_1: &'static str = "!?\n\n### Response:\n";

pub const RESPONSE_MARK_2: &'static str = "?\n\n### Response:\n";

pub const RESPONSE_MARK_3: &'static str = ".\n\n### Response:\n";

pub const RESPONSE_MARK_4: &'static str = "### Response:\n";

pub const RESPONSE_MARK_5: &'static str = "Response:\n";

pub const RESPONSE_MARK_6: &'static str = "Response\n";

/// A candidate answer without the response markers that precede it (each
/// marker stripped as often as it repeats, in a fixed order) and without
/// surrounding whitespace: the markers cost tokens and say nothing of quality.
pub open spec fn clean_answer_text(s: Seq<char>) -> Seq<char> {
    let s1 = strip_repeated(s, RESPONSE_MARK_1@);
    let s2 = strip_repeated(s1, RESPONSE_MARK_2@);
    let s3 = strip_repeated(s2, RESPONSE_MARK_3@);
    let s4 = strip_repeated(s3, RESPONSE_MARK_4@);
    let s5 = strip_repeated(s4, RESPONSE_MARK_5@);
    let s6 = strip_repeated(s5, RESPONSE_MARK_6@);
    trim_end(trim_start(s6))
}

/// Whether `v[a..b]` starts with `p`.
pub(crate) fn has_prefix_at(v: &Vec<char>, a: usize, b: usize, p: &Vec<char>) -> (r: bool)
    requires
        a <= b <= v@.len(),
    ensures
        r == (p@.len() <= b - a && v@.subrange(a as int, b as int).take(p@.len() as int) == p@),
{
    if p.len() > b - a {
        return false;
    }
    let mut k: usize = 0;
    while k < p.len()
        invariant
            p@.len() <= b - a,
            a <= b <= v@.len(),
            k <= p@.len(),
            forall|j: int| 0 <= j < k ==> v@[a + j] == p@[j],
        decreases p@.len() - k,
    {
        if v[a + k] != p[k] {
            assert(v@.subrange(a as int, b as int).take(p@.len() as int)[k as int] != p@[k as int]);
            return false;
        }
        k = k + 1;
    }
    assert(v@.subrange(a as int, b as int).take(p@.len() as int) =~= p@);
    true
}

/// The start of `v[a..b]` once every leading repetition of `pat` is removed.
pub(crate) fn skip_repeated(v: &Vec<char>, a: usize, b: usize, pat: &str) -> (r: usize)
    requires
        a <= b <= v@.len(),
    ensures
        a <= r <= b,
        v@.subrange(r as int, b as int) == strip_repeated(v@.subrange(a as int, b as int), pat@),
{
    let p = chars_of(pat);
    let mut i = a;
    if p.len() == 0 {
        return a;
    }
    while has_prefix_at(v, i, b, &p)
        invariant
            a <= i <= b <= v@.len(),
            p@ == pat@,
            p@.len() > 0,
            strip_repeated(v@.subrange(i as int, b as int), pat@) == strip_repeated(
                v@.subrange(a as int, b as int),
                pat@,
            ),
        decreases b - i,
    {
        proof {
            assert(v@.subrange(i as int, b as int).skip(p@.len() as int) =~= v@.subrange(
                i + p@.len(),
                b as int,
            ));
        }
        i = i + p.len();
    }
    i
}

/// Removes the response markers and the surrounding whitespace from a
/// candidate answer.
pub fn clean_answer(answer: &str) -> (r: &str)
    ensures
        r@ == clean_answer_text(answer@),
{
    let v = chars_of(answer);
    let b = v.len();
    let a0: usize = 0;
    assert(v@.subrange(0, b as int) =~= answer@);
    let a1 = skip_repeated(&v, a0, b, RESPONSE_MARK_1);
    let a2 = skip_repeated(&v, a1, b, RESPONSE_MARK_2);
    let a3 = skip_repeated(&v, a2, b, RESPONSE_MARK_3);
    let a4 = skip_repeated(&v, a3, b, RESPONSE_MARK_4);
    let a5 = skip_repeated(&v, a4, b, RESPONSE_MARK_5);
    let a6 = skip_repeated(&v, a5, b, RESPONSE_MARK_6);
    let mut s = a6;
    while s < b && is_space(v[s])
        invariant
            a6 <= s <= b == v@.len(),
            trim_start(v@.subrange(s as int, b as int)) == trim_start(
                v@.subrange(a6 as int, b as int),
            ),
        decreases b - s,
    {
        assert(v@.subrange(s as int, b as int).skip(1) =~= v@.subrange(s + 1, b as int));
        s = s + 1;
    }
    assert(trim_start(v@.subrange(s as int, b as int)) == v@.subrange(s as int, b as int));
    let mut e = b;
    while e > s && is_space(v[e - 1])
        invariant
            s <= e <= b == v@.len(),
            trim_end(v@.subrange(s as int, e as int)) == trim_end(
                v@.subrange(s as int, b as int),
            ),
        decreases e - s,
    {
        assert(v@.subrange(s as int, e as int).drop_last() =~= v@.subrange(s as int, e - 1));
        e = e - 1;
    }
    assert(trim_end(v@.subrange(s as int, e as int)) == v@.subrange(s as int, e as int));
    answer.substring_char(s, e)
}

/// The opening of a paraphrase request, before the list of variants.
pub const PARAPHRASE_HEAD: &'static str = "You are an expert paraphraser.\nRewrite the *Original Instruction* in ALL of the variants listed below.\n\n";

/// The closing of a paraphrase request, before the original instruction.
pub const PARAPHRASE_TAIL: &'static str = "\n\nReturn **only** one JSON object with exactly those keys.\n\nOriginal Instruction:\n";

/// The line that asks for one variant.
pub open spec fn bullet_text(key: Seq<char>, label: Seq<char>) -> Seq<char> {
    "* **"@ + key + "** \u{2013} rewrite in the \""@ + label + "\" variant ("@ + key + ")."@
}

/// One line per key, joined by newlines.
pub open spec fn bullet_list(keys: Seq<Seq<char>>, label: Seq<char>) -> Seq<char>
    decreases keys.len(),
{
    if keys.len() == 0 {
        Seq::empty()
    } else if keys.len() == 1 {
        bullet_text(keys[0], label)
    } else {
        bullet_list(keys.drop_last(), label) + "\n"@ + bullet_text(keys.last(), label)
    }
}

/// The request for paraphrases of `original` under each of `keys`.
pub open spec fn paraphrase_prompt_text(original: Seq<char>, keys: Seq<Seq<char>>, label: Seq<char>) -> Seq<
    char,
> {
    PARAPHRASE_HEAD@ + bullet_list(keys, label) + PARAPHRASE_TAIL@ + original
}

/// Builds the request for paraphrases of `original`, one per key, in the
/// style that `label` names.
pub fn build_prompt(original: &str, keys: &[&str], label: &str) -> (r: String)
    ensures
        r@ == paraphrase_prompt_text(original@, keys@.map_values(|k: &str| k@), label@),
{
    let ghost kv = keys@.map_values(|k: &str| k@);
    let mut s = String::from_str(PARAPHRASE_HEAD);
    let mut i: usize = 0;
    assert(kv.take(0) =~= Seq::<Seq<char>>::empty());
    while i < keys.len()
        invariant
            i <= keys@.len(),
            kv == keys@.map_values(|k: &str| k@),
            s@ == PARAPHRASE_HEAD@ + bullet_list(kv.take(i as int), label@),
        decreases keys@.len() - i,
    {
        let k = keys[i];
        if i > 0 {
            s.append("\n");
        }
        s.append("* **");
        s.append(k);
        s.append("** \u{2013} rewrite in the \"");
        s.append(label);
        s.append("\" variant (");
        s.append(k);
        s.append(").");
        proof {
            let t = kv.take(i + 1);
            assert(t.drop_last() =~= kv.take(i as int));
            assert(t.last() == k@);
            if i == 0 {
                assert(t[0] == k@);
            }
        }
        i = i + 1;
    }
    assert(kv.take(i as int) =~= kv);
    s.append(PARAPHRASE_TAIL);
    s.append(original);
    s
}

} // verus!
