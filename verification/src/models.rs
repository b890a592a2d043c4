//! What the providers' model lists say about each model: the display name
//! and the thinking and tool capabilities, as each preset derives them from
//! its vendor's list. Prices, which are fractional, are kept by the caller.

use vstd::prelude::*;
use crate::providers::{map_effort, ThinkingConfig};
use crate::text::{
    chars_of, join_seq, lowercase_of, push_str, str_eq, string_of, to_lowercase, trim, trim_chars,
};

verus! {

/// A model's capabilities as the composer uses them.
pub struct ModelCaps {
    pub id: String,
    pub display_name: String,
    pub context_length: u64,
    pub max_output_tokens: Option<u64>,
    pub supports_thinking: bool,
    /// Thinking is forced on.
    pub thinking_mandatory: bool,
    /// Supported reasoning effort levels (empty: on/off only).
    pub thinking_efforts: Vec<String>,
    pub default_effort: Option<String>,
    pub supports_tools: bool,
}

/// The text after the last `:` of `s` (all of `s` when there is none).
pub open spec fn after_last_colon(s: Seq<char>) -> Seq<char>
    decreases s.len(),
{
    if s.len() == 0 {
        s
    } else if s.last() == ':' {
        Seq::<char>::empty()
    } else {
        after_last_colon(s.drop_last()).push(s.last())
    }
}

/// OpenRouter's display name: the part of the listed name after its last
/// `:` (names read "Vendor: Model"), trimmed; the id when that is empty or
/// there is no name.
pub open spec fn openrouter_display(name: Option<Seq<char>>, id: Seq<char>) -> Seq<char> {
    match name {
        Some(n) => if trim(after_last_colon(n)).len() > 0 {
            trim(after_last_colon(n))
        } else {
            id
        },
        None => id,
    }
}

fn after_last_colon_exec(v: &Vec<char>) -> (r: Vec<char>)
    ensures
        r@ == after_last_colon(v@),
{
    let mut r: Vec<char> = Vec::new();
    let mut i: usize = 0;
    while i < v.len()
        invariant
            i <= v@.len(),
            r@ == after_last_colon(v@.take(i as int)),
        decreases v@.len() - i,
    {
        proof {
            assert(v@.take(i + 1).drop_last() =~= v@.take(i as int));
        }
        if v[i] == ':' {
            r = Vec::new();
        } else {
            r.push(v[i]);
        }
        i = i + 1;
    }
    assert(v@.take(v@.len() as int) =~= v@);
    r
}

/// Whether a list of parameter names holds `p`.
pub open spec fn has_param(params: Seq<String>, p: Seq<char>) -> bool {
    exists|i: int| 0 <= i < params.len() && params[i]@ == p
}

fn has_param_exec(params: &Vec<String>, p: &str) -> (b: bool)
    ensures
        b == has_param(params@, p@),
{
    let mut i: usize = 0;
    while i < params.len()
        invariant
            i <= params@.len(),
            forall|j: int| 0 <= j < i ==> params@[j]@ != p@,
        decreases params@.len() - i,
    {
        if str_eq(params[i].as_str(), p) {
            return true;
        }
        i = i + 1;
    }
    false
}

/// One entry of OpenRouter's model list.
pub struct OpenRouterModel {
    pub id: String,
    pub name: Option<String>,
    pub context_length: Option<u64>,
    pub max_completion_tokens: Option<u64>,
    pub supported_parameters: Option<Vec<String>>,
    pub reasoning_mandatory: Option<bool>,
    pub supported_efforts: Option<Vec<String>>,
    pub default_effort: Option<String>,
}

pub open spec fn params_of(m: OpenRouterModel) -> Seq<String> {
    match m.supported_parameters {
        Some(p) => p@,
        None => Seq::<String>::empty(),
    }
}

pub open spec fn efforts_of(m: OpenRouterModel) -> Seq<String> {
    match m.supported_efforts {
        Some(e) => e@,
        None => Seq::<String>::empty(),
    }
}

/// OpenRouter's capabilities of a listed model: thinking when it is
/// mandatory, has effort levels or takes a `reasoning` parameter; tools
/// when it takes a `tools` parameter.
pub fn openrouter_caps(m: OpenRouterModel) -> (c: ModelCaps)
    ensures
        c.id@ == m.id@,
        c.display_name@ == openrouter_display(
            match m.name {
                Some(n) => Some(n@),
                None => None,
            },
            m.id@,
        ),
        c.context_length == match m.context_length {
            Some(n) => n,
            None => 0,
        },
        c.max_output_tokens == m.max_completion_tokens,
        c.thinking_mandatory == (m.reasoning_mandatory == Some(true)),
        c.supports_thinking == (m.reasoning_mandatory == Some(true) || efforts_of(m).len() > 0
            || has_param(params_of(m), "reasoning"@)),
        c.supports_tools == has_param(params_of(m), "tools"@),
        c.thinking_efforts@ == efforts_of(m),
        c.default_effort == m.default_effort,
{
    let params = match m.supported_parameters {
        Some(p) => p,
        None => Vec::new(),
    };
    let efforts = match m.supported_efforts {
        Some(e) => e,
        None => Vec::new(),
    };
    let mandatory = match m.reasoning_mandatory {
        Some(b) => b,
        None => false,
    };
    let supports_thinking = mandatory || efforts.len() > 0 || has_param_exec(&params, "reasoning");
    let supports_tools = has_param_exec(&params, "tools");
    let display_name = match &m.name {
        Some(n) => {
            let t = trim_chars(&after_last_colon_exec(&chars_of(n.as_str())));
            if t.len() > 0 {
                string_of(t.as_slice())
            } else {
                String::from_str(m.id.as_str())
            }
        },
        None => String::from_str(m.id.as_str()),
    };
    ModelCaps {
        id: m.id,
        display_name,
        context_length: match m.context_length {
            Some(n) => n,
            None => 0,
        },
        max_output_tokens: m.max_completion_tokens,
        supports_thinking,
        thinking_mandatory: mandatory,
        thinking_efforts: efforts,
        default_effort: m.default_effort,
        supports_tools,
    }
}

/// `needle` occurs in `s`.
pub open spec fn occurs(s: Seq<char>, needle: Seq<char>) -> bool {
    exists|i: int| 0 <= i && i + needle.len() <= s.len() && #[trigger] s.subrange(i, i + needle.len()) == needle
}

fn occurs_exec(v: &Vec<char>, needle: &str) -> (b: bool)
    ensures
        b == occurs(v@, needle@),
{
    let n = chars_of(needle);
    if n.len() > v.len() {
        return false;
    }
    let mut i: usize = 0;
    let last = v.len() - n.len();
    while i <= last
        invariant
            last == v@.len() - n@.len(),
            v@.len() <= usize::MAX,
            n@ == needle@,
            n@.len() <= v@.len(),
            i <= v@.len() - n@.len() + 1,
            forall|j: int| 0 <= j < i ==> #[trigger] v@.subrange(j, j + n@.len()) != n@,
        decreases v@.len() - i,
    {
        let mut k: usize = 0;
        let mut same = true;
        while k < n.len()
            invariant
                k <= n@.len(),
                i + n@.len() <= v@.len(),
                v@.len() <= usize::MAX,
                same == forall|q: int| 0 <= q < k ==> v@[i + q] == n@[q],
            decreases n@.len() - k,
        {
            if v[i + k] != n[k] {
                same = false;
            }
            k = k + 1;
        }
        if same {
            proof {
                assert(v@.subrange(i as int, i + n@.len()) =~= n@);
            }
            return true;
        }
        proof {
            let q = choose|q: int| 0 <= q < n@.len() && v@[i + q] != n@[q];
            assert(v@.subrange(i as int, i + n@.len())[q] != n@[q]);
            assert(n@.len() > 0);
        }
        i = i + 1;
    }
    proof {
        assert forall|j: int| 0 <= j && j + n@.len() <= v@.len() implies #[trigger] v@.subrange(j, j + n@.len())
            != n@ by {
            assert(j < i);
        }
    }
    false
}

/// One entry of Kimi's model list.
pub struct KimiModel {
    pub id: String,
    pub display_name: Option<String>,
    pub context_length: Option<u64>,
    pub supports_reasoning: Option<bool>,
    /// The `think_efforts` record: whether efforts are supported, which,
    /// and the default.
    pub think_support: bool,
    pub valid_efforts: Vec<String>,
    pub think_default_effort: Option<String>,
}

/// Kimi's name heuristic: an id that, lowercased, holds `thinking` or
/// `reason` names an always-thinking model.
pub open spec fn kimi_mandatory(id: Seq<char>) -> bool {
    occurs(lowercase_of(id), "thinking"@) || occurs(lowercase_of(id), "reason"@)
}

/// Kimi's capabilities of a listed model.
pub fn kimi_caps(m: KimiModel) -> (c: ModelCaps)
    ensures
        c.id@ == m.id@,
        c.display_name@ == match m.display_name {
            Some(d) => if trim(d@).len() > 0 {
                d@
            } else {
                m.id@
            },
            None => m.id@,
        },
        c.context_length == match m.context_length {
            Some(n) => n,
            None => 0,
        },
        c.max_output_tokens is None,
        c.thinking_mandatory == kimi_mandatory(m.id@),
        c.supports_thinking == (m.supports_reasoning == Some(true) || kimi_mandatory(m.id@)),
        c.thinking_efforts@ == if m.think_support {
            m.valid_efforts@
        } else {
            Seq::<String>::empty()
        },
        c.default_effort == if m.think_support {
            m.think_default_effort
        } else {
            None
        },
        c.supports_tools,
{
    let (efforts, default_effort) = if m.think_support {
        (m.valid_efforts, m.think_default_effort)
    } else {
        (Vec::new(), None)
    };
    let lower = chars_of(to_lowercase(m.id.as_str()).as_str());
    let thinking_mandatory = occurs_exec(&lower, "thinking") || occurs_exec(&lower, "reason");
    let supports_thinking = match m.supports_reasoning {
        Some(b) => b,
        None => false,
    } || thinking_mandatory;
    let display_name = match m.display_name {
        Some(d) => {
            if trim_chars(&chars_of(d.as_str())).len() > 0 {
                d
            } else {
                String::from_str(m.id.as_str())
            }
        },
        None => String::from_str(m.id.as_str()),
    };
    ModelCaps {
        id: m.id,
        display_name,
        context_length: match m.context_length {
            Some(n) => n,
            None => 0,
        },
        max_output_tokens: None,
        supports_thinking,
        thinking_mandatory,
        thinking_efforts: efforts,
        default_effort,
        supports_tools: true,
    }
}

/// A model the account lists that has no fixed entry: known by its id
/// only, with tools and without thinking.
pub fn plain_model(id: &str) -> (c: ModelCaps)
    ensures
        c.id@ == id@,
        c.display_name@ == id@,
        c.context_length == 0,
        c.max_output_tokens is None,
        !c.supports_thinking,
        !c.thinking_mandatory,
        c.thinking_efforts@.len() == 0,
        c.default_effort is None,
        c.supports_tools,
{
    ModelCaps {
        id: String::from_str(id),
        display_name: String::from_str(id),
        context_length: 0,
        max_output_tokens: None,
        supports_thinking: false,
        thinking_mandatory: false,
        thinking_efforts: Vec::new(),
        default_effort: None,
        supports_tools: true,
    }
}

pub open spec fn model_ids(ms: Seq<ModelCaps>) -> Seq<Seq<char>> {
    ms.map_values(|m: ModelCaps| m.id@)
}

/// Adds the extra ids an account lists, in order, each unless a model with
/// that id is already there.
pub fn merge_listed_ids(models: &mut Vec<ModelCaps>, extra: &Vec<String>)
    ensures
        final(models)@.len() >= old(models)@.len(),
        final(models)@.subrange(0, old(models)@.len() as int) == old(models)@,
        forall|k: int| 0 <= k < extra@.len() ==> model_ids(final(models)@).contains(#[trigger] extra@[k]@),
        forall|k: int|
            old(models)@.len() <= k < final(models)@.len() ==> !model_ids(old(models)@).contains(
                #[trigger] final(models)@[k].id@,
            ),
        model_ids(old(models)@).no_duplicates() ==> model_ids(final(models)@).no_duplicates(),
{
    let ghost orig = models@;
    let mut i: usize = 0;
    while i < extra.len()
        invariant
            i <= extra@.len(),
            models@.len() >= orig.len(),
            models@.subrange(0, orig.len() as int) == orig,
            forall|k: int| 0 <= k < i ==> model_ids(models@).contains(#[trigger] extra@[k]@),
            forall|k: int|
                orig.len() <= k < models@.len() ==> !model_ids(orig).contains(#[trigger] models@[k].id@),
            model_ids(orig).no_duplicates() ==> model_ids(models@).no_duplicates(),
        decreases extra@.len() - i,
    {
        let mut j: usize = 0;
        let mut present = false;
        while j < models.len()
            invariant
                j <= models@.len(),
                i < extra@.len(),
                present == exists|q: int| 0 <= q < j && models@[q].id@ == extra@[i as int]@,
            decreases models@.len() - j,
        {
            if str_eq(models[j].id.as_str(), extra[i].as_str()) {
                present = true;
            }
            j = j + 1;
        }
        let ghost before = models@;
        if !present {
            models.push(plain_model(extra[i].as_str()));
            proof {
                let ids = model_ids(models@);
                assert(ids =~= model_ids(before).push(extra@[i as int]@));
                assert(models@.subrange(0, orig.len() as int) =~= before.subrange(0, orig.len() as int));
                assert forall|k: int| 0 <= k < i + 1 implies model_ids(models@).contains(#[trigger] extra@[k]@) by {
                    if k < i {
                        let w = choose|w: int| 0 <= w < model_ids(before).len() && model_ids(before)[w] == extra@[k]@;
                        assert(ids[w] == extra@[k]@);
                    } else {
                        assert(ids[before.len() as int] == extra@[k]@);
                    }
                }
                assert forall|k: int| orig.len() <= k < models@.len() implies !model_ids(orig).contains(#[trigger] models@[k].id@) by {
                    if k == before.len() {
                        if model_ids(orig).contains(models@[k].id@) {
                            let w = choose|w: int| 0 <= w < model_ids(orig).len() && model_ids(orig)[w] == models@[k].id@;
                            assert(before[w] == orig[w]);
                            assert(before[w].id@ == extra@[i as int]@);
                        }
                    } else {
                        assert(models@[k] == before[k]);
                    }
                }
                if model_ids(orig).no_duplicates() {
                    assert forall|a: int, b: int| 0 <= a < b < ids.len() implies ids[a] != ids[b] by {
                        if b == before.len() {
                            assert(before[a].id@ != extra@[i as int]@);
                        } else {
                            assert(model_ids(before)[a] == ids[a]);
                            assert(model_ids(before)[b] == ids[b]);
                        }
                    }
                }
            }
        } else {
            proof {
                let q = choose|q: int| 0 <= q < before.len() && before[q].id@ == extra@[i as int]@;
                assert(model_ids(before)[q] == extra@[i as int]@);
            }
        }
        i = i + 1;
    }
}

/// DeepSeek's fixed flagship model with this id and display name:
/// thinking capable, 1M context, 384K output, efforts `high` and `max`.
fn deepseek_flagship(id: &str, display_name: &str) -> (c: ModelCaps)
    ensures
        c.id@ == id@,
        c.display_name@ == display_name@,
        c.context_length == 1_000_000,
        c.max_output_tokens == Some(384_000u64),
        c.supports_thinking,
        !c.thinking_mandatory,
        c.thinking_efforts@.len() == 2,
        c.thinking_efforts@[0]@ == "high"@,
        c.thinking_efforts@[1]@ == "max"@,
        c.default_effort matches Some(e) && e@ == "high"@,
        c.supports_tools,
{
    let mut efforts: Vec<String> = Vec::new();
    efforts.push(String::from_str("high"));
    efforts.push(String::from_str("max"));
    ModelCaps {
        id: String::from_str(id),
        display_name: String::from_str(display_name),
        context_length: 1_000_000,
        max_output_tokens: Some(384_000),
        supports_thinking: true,
        thinking_mandatory: false,
        thinking_efforts: efforts,
        default_effort: Some(String::from_str("high")),
        supports_tools: true,
    }
}

/// DeepSeek's fixed models, listed whatever the account reports: the
/// flash and pro flagships, each named by its id's dash-separated words
/// capitalized.
pub fn deepseek_models() -> (ms: Vec<ModelCaps>)
    ensures
        ms@.len() == 2,
        ms@[0].id@ == "deepseek-v4-flash"@,
        ms@[0].display_name@ == "Deepseek V4 Flash"@,
        ms@[1].id@ == "deepseek-v4-pro"@,
        ms@[1].display_name@ == "Deepseek V4 Pro"@,
        forall|k: int| 0 <= k < 2 ==> (#[trigger] ms@[k]).supports_thinking && ms@[k].supports_tools
            && ms@[k].context_length == 1_000_000,
{
    let mut ms: Vec<ModelCaps> = Vec::new();
    ms.push(deepseek_flagship("deepseek-v4-flash", "Deepseek V4 Flash"));
    ms.push(deepseek_flagship("deepseek-v4-pro", "Deepseek V4 Pro"));
    ms
}

// ---------------------------------------------------------------------------
// Thinking settings of a request
// ---------------------------------------------------------------------------

/// The thinking fields of a DeepSeek or Kimi request.
pub struct ThinkingPlan {
    /// The `thinking` field: absent for models without thinking, else
    /// whether thinking is on.
    pub thinking: Option<bool>,
    /// The `reasoning_effort` field.
    pub effort: Option<String>,
    /// Whether the fixed temperature is sent (the APIs reject it while
    /// thinking is on).
    pub send_temperature: bool,
}

/// DeepSeek: thinking is on when the model supports it and the composer
/// asks for it; the effort is then mapped to `high` or `max`.
pub fn deepseek_thinking(supports_thinking: bool, thinking: Option<&ThinkingConfig>) -> (p: ThinkingPlan)
    ensures
        ({
            let on = supports_thinking && (thinking matches Some(t) && t.enabled);
            &&& p.thinking == if supports_thinking {
                Some(on)
            } else {
                None
            }
            &&& p.send_temperature == !on
            &&& match p.effort {
                Some(e) => on && e@ == (if thinking matches Some(t) && t.effort matches Some(x) && x@ == "max"@ {
                    "max"@
                } else {
                    "high"@
                }),
                None => !on,
            }
        }),
{
    let on = supports_thinking && match thinking {
        Some(t) => t.enabled,
        None => false,
    };
    let effort = if on {
        let requested = match thinking {
            Some(t) => match &t.effort {
                Some(e) => Some(e.as_str()),
                None => None,
            },
            None => None,
        };
        Some(String::from_str(map_effort(requested)))
    } else {
        None
    };
    ThinkingPlan {
        thinking: if supports_thinking {
            Some(on)
        } else {
            None
        },
        effort,
        send_temperature: !on,
    }
}

/// The effort levels of a model, as `a, b, c`.
pub open spec fn efforts_text(m: ModelCaps) -> Seq<char> {
    join_seq(m.thinking_efforts@.map_values(|e: String| e@), ", "@)
}

/// What Kimi's thinking settings come to: the effort sent, or the error
/// for an effort the model does not list.
pub open spec fn kimi_effort(meta: Option<ModelCaps>, requested: Option<Seq<char>>, on: bool) -> Result<
    Option<Seq<char>>,
    Seq<char>,
> {
    if !on {
        Ok(None)
    } else {
        match (meta, requested) {
            (Some(m), Some(e)) => if m.thinking_efforts@.len() == 0 || exists|i: int|
                0 <= i < m.thinking_efforts@.len() && m.thinking_efforts@[i]@ == e {
                Ok(Some(e))
            } else {
                Err("Reasoning effort \""@ + e + "\" is not supported by "@ + m.id@ + " (valid: "@
                    + efforts_text(m) + "). Pick a valid level in the composer."@)
            },
            (Some(m), None) => Ok(
                match m.default_effort {
                    Some(d) => Some(d@),
                    None => None,
                },
            ),
            (None, e) => Ok(e),
        }
    }
}

/// Kimi: thinking is on when the model supports it and it is mandatory or
/// asked for; a requested effort must be one the model lists (any, when it
/// lists none), else the request is refused; without one, the model's
/// default applies.
pub fn kimi_thinking(meta: Option<&ModelCaps>, thinking: Option<&ThinkingConfig>) -> (r: Result<
    ThinkingPlan,
    String,
>)
    ensures
        ({
            let supports = meta matches Some(m) && m.supports_thinking;
            let mandatory = meta matches Some(m) && m.thinking_mandatory;
            let on = supports && (mandatory || (thinking matches Some(t) && t.enabled));
            let requested = match thinking {
                Some(t) => match t.effort {
                    Some(e) => Some(e@),
                    None => None,
                },
                None => None,
            };
            let outcome = kimi_effort(
                match meta {
                    Some(m) => Some(*m),
                    None => None,
                },
                requested,
                on,
            );
            match r {
                Ok(p) => {
                    &&& p.thinking == if supports {
                        Some(on)
                    } else {
                        None
                    }
                    &&& p.send_temperature == !on
                    &&& outcome == Ok::<Option<Seq<char>>, Seq<char>>(
                        match p.effort {
                            Some(e) => Some(e@),
                            None => None,
                        },
                    )
                },
                Err(e) => outcome == Err::<Option<Seq<char>>, Seq<char>>(e@),
            }
        }),
{
    let supports = match meta {
        Some(m) => m.supports_thinking,
        None => false,
    };
    let mandatory = match meta {
        Some(m) => m.thinking_mandatory,
        None => false,
    };
    let on = supports && (mandatory || match thinking {
        Some(t) => t.enabled,
        None => false,
    });
    let requested: Option<&str> = match thinking {
        Some(t) => match &t.effort {
            Some(e) => Some(e.as_str()),
            None => None,
        },
        None => None,
    };
    let effort: Option<String> = if !on {
        None
    } else {
        match (meta, requested) {
            (Some(m), Some(e)) => {
                let mut listed = m.thinking_efforts.len() == 0;
                let mut i: usize = 0;
                while i < m.thinking_efforts.len()
                    invariant
                        i <= m.thinking_efforts@.len(),
                        listed == (m.thinking_efforts@.len() == 0 || exists|k: int|
                            0 <= k < i && m.thinking_efforts@[k]@ == e@),
                    decreases m.thinking_efforts@.len() - i,
                {
                    if str_eq(m.thinking_efforts[i].as_str(), e) {
                        listed = true;
                    }
                    i = i + 1;
                }
                if !listed {
                    let mut msg = String::from_str("Reasoning effort \"");
                    push_str(&mut msg, e);
                    push_str(&mut msg, "\" is not supported by ");
                    push_str(&mut msg, m.id.as_str());
                    push_str(&mut msg, " (valid: ");
                    let joined = join_strings(&m.thinking_efforts, ", ");
                    push_str(&mut msg, joined.as_str());
                    push_str(&mut msg, "). Pick a valid level in the composer.");
                    return Err(msg);
                }
                Some(String::from_str(e))
            },
            (Some(m), None) => match &m.default_effort {
                Some(d) => Some(String::from_str(d.as_str())),
                None => None,
            },
            (None, e) => match e {
                Some(x) => Some(String::from_str(x)),
                None => None,
            },
        }
    };
    Ok(ThinkingPlan {
        thinking: if supports {
            Some(on)
        } else {
            None
        },
        effort,
        send_temperature: !on,
    })
}

fn join_strings(v: &Vec<String>, sep: &str) -> (s: String)
    ensures
        s@ == join_seq(v@.map_values(|e: String| e@), sep@),
{
    let ghost vs = v@.map_values(|e: String| e@);
    let mut s = String::new();
    let mut i: usize = 0;
    while i < v.len()
        invariant
            i <= v@.len(),
            vs == v@.map_values(|e: String| e@),
            s@ == join_seq(vs.take(i as int), sep@),
        decreases v@.len() - i,
    {
        proof {
            assert(vs.take(i + 1).drop_last() =~= vs.take(i as int));
            assert(vs.take(i + 1).last() == v@[i as int]@);
        }
        if i > 0 {
            push_str(&mut s, sep);
        }
        push_str(&mut s, v[i].as_str());
        proof {
            if i == 0 {
                assert(vs.take(1).len() == 1);
            }
        }
        i = i + 1;
    }
    assert(vs.take(v@.len() as int) =~= vs);
    s
}

} // verus!
