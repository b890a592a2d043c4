//! Agent configuration: per-tool settings, provider instances and the keys
//! under which they are stored in the settings vault.

use vstd::prelude::*;
use crate::text::{chars_of, dec, push_dec, push_str, str_eq, string_of, trim, trim_chars};

verus! {

/// Key of the JSON record of per-tool configurations.
pub const KEY_TOOLS: &'static str = "agent:tools";

/// Key of the JSON list of provider instances.
pub const KEY_PROVIDERS: &'static str = "agent:providers";

/// Key of the `"{instanceId}/{modelId}"` used for thread titles.
pub const KEY_TITLE_MODEL: &'static str = "agent:title_model";

/// Per-tool user configuration. The tool-specific options stay with the
/// caller; the decisions here read only these two flags.
pub struct ToolConfig {
    pub enabled: bool,
    pub require_approval: bool,
}

/// The flags a tool runs with: the user's, or, when the user configured
/// nothing, enabled with the tool's own approval default.
pub fn resolve_tool_flags(user: Option<&ToolConfig>, default_requires_approval: bool) -> (c: ToolConfig)
    ensures
        match user {
            Some(u) => c.enabled == u.enabled && c.require_approval == u.require_approval,
            None => c.enabled && c.require_approval == default_requires_approval,
        },
{
    match user {
        Some(u) => ToolConfig { enabled: u.enabled, require_approval: u.require_approval },
        None => ToolConfig { enabled: true, require_approval: default_requires_approval },
    }
}

/// Vault key of a provider instance's API key.
pub fn api_key_key(instance_id: &str) -> (k: String)
    ensures
        k@ == "agent:provider:"@ + instance_id@ + ":api_key"@,
{
    let mut k = String::from_str("agent:provider:");
    push_str(&mut k, instance_id);
    push_str(&mut k, ":api_key");
    k
}

/// A provider instance created from a preset. Its API key is stored
/// separately, under `api_key_key(id)`.
pub struct ProviderInstance {
    pub id: String,
    /// `openrouter`, `deepseek` or `kimi`.
    pub preset: String,
    pub name: String,
    pub base_url: Option<String>,
}

/// `str::trim_end_matches('/')`.
pub open spec fn strip_trailing_slashes(s: Seq<char>) -> Seq<char>
    decreases s.len(),
{
    if s.len() > 0 && s.last() == '/' {
        strip_trailing_slashes(s.drop_last())
    } else {
        s
    }
}

/// The base URL in force: the instance's own (trimmed, without trailing
/// slashes) when it is not blank, else the preset's default, else empty.
pub open spec fn resolved_base_url_spec(p: ProviderInstance) -> Seq<char> {
    if p.base_url matches Some(u) && trim(u@).len() > 0 {
        strip_trailing_slashes(trim(p.base_url->0@))
    } else {
        match crate::providers::preset_index(p.preset@) {
            Some(k) => crate::providers::preset_url_spec(k),
            None => Seq::<char>::empty(),
        }
    }
}

impl ProviderInstance {
    /// Effective base URL: instance override or the preset default.
    pub fn resolved_base_url(&self) -> (u: String)
        ensures
            u@ == resolved_base_url_spec(*self),
    {
        if let Some(url) = &self.base_url {
            let v = chars_of(url.as_str());
            let t = trim_chars(&v);
            if t.len() > 0 {
                let mut end = t.len();
                assert(t@.take(end as int) =~= t@);
                while end > 0 && t[end - 1] == '/'
                    invariant
                        end <= t@.len(),
                        strip_trailing_slashes(t@) == strip_trailing_slashes(t@.take(end as int)),
                    decreases end,
                {
                    assert(t@.take(end as int).drop_last() =~= t@.take(end - 1));
                    end = end - 1;
                }
                assert(t@.take(t@.len() as int) =~= t@);
                let mut r = String::new();
                let mut i: usize = 0;
                while i < end
                    invariant
                        i <= end <= t@.len(),
                        r@ == t@.take(i as int),
                    decreases end - i,
                {
                    r.push(t[i]);
                    i = i + 1;
                    assert(r@ =~= t@.take(i as int));
                }
                return r;
            }
        }
        match crate::providers::preset_default_base_url(self.preset.as_str()) {
            Some(u) => String::from_str(u),
            None => String::new(),
        }
    }
}

/// The app's fixed settings. Agent configuration lives in the vault's
/// key-value store, so no fixed field remains; the type keeps the
/// settings interface stable.
pub struct AppSettings {}

impl Default for AppSettings {
    fn default() -> (s: AppSettings)
        ensures
            s == (AppSettings {}),
    {
        AppSettings {}
    }
}

// ---------------------------------------------------------------------------
// Managing provider instances
// ---------------------------------------------------------------------------

/// How many instances use a preset.
pub open spec fn preset_count(instances: Seq<ProviderInstance>, preset: Seq<char>) -> nat
    decreases instances.len(),
{
    if instances.len() == 0 {
        0
    } else {
        preset_count(instances.drop_last(), preset) + if instances.last().preset@ == preset {
            1nat
        } else {
            0nat
        }
    }
}

/// A new instance's name: the one given when it is not blank, else the
/// preset's name, numbered from 2 on when the preset is already in use.
pub open spec fn new_instance_name(
    instances: Seq<ProviderInstance>,
    preset: Seq<char>,
    name: Option<Seq<char>>,
) -> Result<Seq<char>, Seq<char>> {
    match crate::providers::preset_index(preset) {
        None => Err("Unknown preset: "@ + preset),
        Some(k) => if name matches Some(n) && trim(n).len() > 0 {
            Ok(name->0)
        } else if preset_count(instances, preset) == 0 {
            Ok(crate::providers::preset_name_spec(k))
        } else {
            Ok(crate::providers::preset_name_spec(k) + " "@ + dec(preset_count(instances, preset) + 1))
        },
    }
}

fn count_preset(instances: &Vec<ProviderInstance>, preset: &str) -> (n: usize)
    ensures
        n == preset_count(instances@, preset@),
        n <= instances@.len(),
{
    let mut n: usize = 0;
    let mut i: usize = 0;
    while i < instances.len()
        invariant
            i <= instances@.len(),
            n == preset_count(instances@.take(i as int), preset@),
            n <= i,
        decreases instances@.len() - i,
    {
        proof {
            assert(instances@.take(i + 1).drop_last() =~= instances@.take(i as int));
        }
        if str_eq(instances[i].preset.as_str(), preset) {
            n = n + 1;
        }
        i = i + 1;
    }
    assert(instances@.take(instances@.len() as int) =~= instances@);
    n
}

/// Creates an instance of a preset under the given id: the name as
/// `new_instance_name` decides, and the base URL override kept only when
/// it is not blank.
pub fn new_instance(
    instances: &Vec<ProviderInstance>,
    id: String,
    preset: &str,
    name: Option<String>,
    base_url: Option<String>,
) -> (r: Result<ProviderInstance, String>)
    requires
        instances@.len() < usize::MAX,
    ensures
        match r {
            Ok(inst) => {
                &&& new_instance_name(
                    instances@,
                    preset@,
                    match name {
                        Some(n) => Some(n@),
                        None => None,
                    },
                ) == Ok::<Seq<char>, Seq<char>>(inst.name@)
                &&& inst.id == id
                &&& inst.preset@ == preset@
                &&& inst.base_url == match base_url {
                    Some(u) => if trim(u@).len() > 0 {
                        Some(u)
                    } else {
                        None
                    },
                    None => None,
                }
            },
            Err(e) => new_instance_name(
                instances@,
                preset@,
                match name {
                    Some(n) => Some(n@),
                    None => None,
                },
            ) == Err::<Seq<char>, Seq<char>>(e@),
        },
{
    let preset_name = match crate::providers::preset_display_name(preset) {
        Some(n) => n,
        None => {
            let mut e = String::from_str("Unknown preset: ");
            push_str(&mut e, preset);
            return Err(e);
        },
    };
    let given = match &name {
        Some(n) => trim_chars(&chars_of(n.as_str())).len() > 0,
        None => false,
    };
    let final_name = if given {
        match name {
            Some(n) => n,
            None => String::new(),
        }
    } else {
        let count = count_preset(instances, preset);
        let mut n = String::from_str(preset_name);
        if count > 0 {
            push_str(&mut n, " ");
            push_dec(&mut n, (count + 1) as u64);
        }
        n
    };
    let base_url = match base_url {
        Some(u) => if trim_chars(&chars_of(u.as_str())).len() > 0 {
            Some(u)
        } else {
            None
        },
        None => None,
    };
    Ok(ProviderInstance { id, preset: String::from_str(preset), name: final_name, base_url })
}

/// Updates an instance's name (when the new one is not blank) and base URL
/// (a blank one clears the override; another is stored trimmed).
pub fn update_instance(
    instances: &mut Vec<ProviderInstance>,
    instance_id: &str,
    name: Option<String>,
    base_url: Option<String>,
) -> (r: Result<(), String>)
    ensures
        match r {
            Ok(()) => exists|i: int|
                {
                    &&& 0 <= i < old(instances)@.len()
                    &&& old(instances)@[i].id@ == instance_id@
                    &&& forall|j: int| 0 <= j < i ==> old(instances)@[j].id@ != instance_id@
                    &&& final(instances)@.len() == old(instances)@.len()
                    &&& forall|j: int|
                        0 <= j < old(instances)@.len() && j != i ==> final(instances)@[j] == old(
                            instances,
                        )@[j]
                    &&& final(instances)@[i].id == old(instances)@[i].id
                    &&& final(instances)@[i].preset == old(instances)@[i].preset
                    &&& final(instances)@[i].name@ == if name matches Some(n) && trim(n@).len() > 0 {
                        name->0@
                    } else {
                        old(instances)@[i].name@
                    }
                    &&& match base_url {
                        Some(u) => if trim(u@).len() > 0 {
                            final(instances)@[i].base_url matches Some(b) && b@ == trim(u@)
                        } else {
                            final(instances)@[i].base_url is None
                        },
                        None => final(instances)@[i].base_url == old(instances)@[i].base_url,
                    }
                },
            Err(e) => e@ == "Provider instance not found"@ && final(instances)@ == old(instances)@
                && forall|j: int| 0 <= j < old(instances)@.len() ==> old(instances)@[j].id@ != instance_id@,
        },
{
    let mut i: usize = 0;
    while i < instances.len()
        invariant
            i <= instances@.len(),
            instances@ == old(instances)@,
            forall|j: int| 0 <= j < i ==> instances@[j].id@ != instance_id@,
        ensures
            i <= instances@.len(),
            instances@ == old(instances)@,
            forall|j: int| 0 <= j < i ==> instances@[j].id@ != instance_id@,
            i == instances@.len() || instances@[i as int].id@ == instance_id@,
        decreases instances@.len() - i,
    {
        if str_eq(instances[i].id.as_str(), instance_id) {
            break;
        }
        i = i + 1;
    }
    if i == instances.len() {
        return Err(String::from_str("Provider instance not found"));
    }
    let old_inst = instances.remove(i);
    let new_name = match name {
        Some(n) => if trim_chars(&chars_of(n.as_str())).len() > 0 {
            n
        } else {
            old_inst.name
        },
        None => old_inst.name,
    };
    let new_url = match base_url {
        Some(u) => {
            let t = trim_chars(&chars_of(u.as_str()));
            if t.len() == 0 {
                None
            } else {
                Some(string_of(t.as_slice()))
            }
        },
        None => old_inst.base_url,
    };
    let ghost mid = instances@;
    instances.insert(
        i,
        ProviderInstance { id: old_inst.id, preset: old_inst.preset, name: new_name, base_url: new_url },
    );
    proof {
        let o = old(instances)@;
        assert(mid == o.remove(i as int));
        assert forall|j: int| 0 <= j < o.len() && j != i implies instances@[j] == o[j] by {
            if j < i {
                assert(instances@[j] == mid[j]);
            } else {
                assert(instances@[j] == mid[j - 1]);
            }
        }
        assert(instances@.len() == o.len());
    }
    Ok(())
}

/// Removes every instance with this id, keeping the others in order.
pub fn delete_instance(instances: &mut Vec<ProviderInstance>, instance_id: &str)
    ensures
        final(instances)@ == remaining_instances(old(instances)@, instance_id@),
{
    let ghost orig = instances@;
    let mut rest: Vec<ProviderInstance> = Vec::new();
    std::mem::swap(&mut rest, instances);
    let mut kept: Vec<ProviderInstance> = Vec::new();
    let n = rest.len();
    let mut k: usize = 0;
    while rest.len() > 0
        invariant
            k + rest@.len() == orig.len(),
            orig.len() == n,
            rest@ == orig.subrange(k as int, orig.len() as int),
            kept@ == orig.take(k as int).filter(keeps(instance_id@)),
        decreases rest@.len(),
    {
        let p = rest.remove(0);
        proof {
            assert(p == orig[k as int]);
            assert(rest@ =~= orig.subrange(k + 1, orig.len() as int));
            assert(orig.take(k + 1).drop_last() =~= orig.take(k as int));
        }
        proof {
            assert(orig.take(k + 1) =~= orig.take(k as int).push(orig[k as int]));
            orig.take(k as int).lemma_filter_push(orig[k as int], keeps(instance_id@));
        }
        if !str_eq(p.id.as_str(), instance_id) {
            kept.push(p);
        }
        k = k + 1;
    }
    proof {
        assert(orig.take(orig.len() as int) =~= orig);
    }
    *instances = kept;
}

/// An instance survives deleting `id` when it has another id.
pub open spec fn keeps(id: Seq<char>) -> spec_fn(ProviderInstance) -> bool {
    |p: ProviderInstance| p.id@ != id
}

/// The instances that remain after deleting an id.
pub open spec fn remaining_instances(instances: Seq<ProviderInstance>, id: Seq<char>) -> Seq<ProviderInstance> {
    instances.filter(keeps(id))
}

/// After an instance is deleted no instance carries its id, and every
/// instance that remains was there before.
pub proof fn lemma_deleted_instance_gone(instances: Seq<ProviderInstance>, id: Seq<char>)
    ensures
        forall|i: int|
            0 <= i < remaining_instances(instances, id).len() ==> (#[trigger] remaining_instances(
                instances,
                id,
            )[i]).id@ != id && instances.contains(remaining_instances(instances, id)[i]),
        remaining_instances(instances, id).len() <= instances.len(),
{
    let pred = keeps(id);
    instances.lemma_filter_len(pred);
    assert forall|i: int| 0 <= i < remaining_instances(instances, id).len() implies (#[trigger] remaining_instances(
        instances,
        id,
    )[i]).id@ != id && instances.contains(remaining_instances(instances, id)[i]) by {
        instances.lemma_filter_pred(pred, i);
        assert(instances.filter(pred).contains(instances.filter(pred)[i]));
        instances.lemma_filter_contains_rev(pred, instances.filter(pred)[i]);
    }
}

// ---------------------------------------------------------------------------
// Title model, model cache, legacy settings
// ---------------------------------------------------------------------------

/// The title model to store: the trimmed selection, or `None` (the key is
/// deleted) when it is blank or absent.
pub fn title_model_value(value: Option<&str>) -> (r: Option<String>)
    ensures
        match value {
            Some(v) => if trim(v@).len() > 0 {
                r matches Some(t) && t@ == trim(v@)
            } else {
                r is None
            },
            None => r is None,
        },
{
    match value {
        Some(v) => {
            let t = trim_chars(&chars_of(v));
            if t.len() > 0 {
                Some(string_of(t.as_slice()))
            } else {
                None
            }
        },
        None => None,
    }
}

/// How long a fetched model list is reused, in seconds.
pub const MODELS_CACHE_SECS: u64 = 600;

/// A cached model list is used unless a refresh is forced or it is ten
/// minutes old.
pub fn models_cache_fresh(force_refresh: bool, age_secs: u64) -> (b: bool)
    ensures
        b == (!force_refresh && age_secs < MODELS_CACHE_SECS),
{
    !force_refresh && age_secs < MODELS_CACHE_SECS
}

/// What migrating the legacy OpenRouter settings creates: an OpenRouter
/// instance with the given id (its base URL kept when not blank) and, when
/// the old default model is set, the title model `{id}/{model}`. Nothing
/// when the legacy key is blank or an OpenRouter instance already exists.
pub fn legacy_migration(
    instances: &Vec<ProviderInstance>,
    new_id: String,
    api_key: Option<&str>,
    base_url: Option<String>,
    default_model: Option<&str>,
) -> (r: Option<(ProviderInstance, Option<String>)>)
    ensures
        match r {
            None => !(api_key matches Some(k) && trim(k@).len() > 0) || exists|i: int|
                0 <= i < instances@.len() && instances@[i].preset@ == "openrouter"@,
            Some((inst, title)) => {
                &&& api_key matches Some(k) && trim(k@).len() > 0
                &&& forall|i: int| 0 <= i < instances@.len() ==> instances@[i].preset@ != "openrouter"@
                &&& inst.id == new_id
                &&& inst.preset@ == "openrouter"@
                &&& inst.name@ == "OpenRouter"@
                &&& inst.base_url == match base_url {
                    Some(u) => if trim(u@).len() > 0 {
                        Some(u)
                    } else {
                        None
                    },
                    None => None,
                }
                &&& match default_model {
                    Some(m) => if trim(m@).len() > 0 {
                        title matches Some(t) && t@ == new_id@ + "/"@ + m@
                    } else {
                        title is None
                    },
                    None => title is None,
                }
            },
        },
{
    let key_ok = match api_key {
        Some(k) => trim_chars(&chars_of(k)).len() > 0,
        None => false,
    };
    if !key_ok {
        return None;
    }
    let mut i: usize = 0;
    while i < instances.len()
        invariant
            i <= instances@.len(),
            forall|j: int| 0 <= j < i ==> instances@[j].preset@ != "openrouter"@,
        decreases instances@.len() - i,
    {
        if str_eq(instances[i].preset.as_str(), "openrouter") {
            return None;
        }
        i = i + 1;
    }
    let base_url = match base_url {
        Some(u) => if trim_chars(&chars_of(u.as_str())).len() > 0 {
            Some(u)
        } else {
            None
        },
        None => None,
    };
    let title = match default_model {
        Some(m) => if trim_chars(&chars_of(m)).len() > 0 {
            let mut t = String::from_str(new_id.as_str());
            push_str(&mut t, "/");
            push_str(&mut t, m);
            Some(t)
        } else {
            None
        },
        None => None,
    };
    Some(
        (
            ProviderInstance {
                id: new_id,
                preset: String::from_str("openrouter"),
                name: String::from_str("OpenRouter"),
                base_url,
            },
            title,
        ),
    )
}

} // verus!
