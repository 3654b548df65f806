//! Which models are kept of the catalogue.
//!
//! The whole catalogue is large. What is kept is what some configuration has
//! asked for since the process started, which only grows. A catalogue that was
//! cut before a model was asked for has to be read again.

use vstd::prelude::*;

use crate::config::app_config::{
    ActiveProviderModelConfig, AppConfig, PlatformModelRoute, ProviderConfig,
};
use crate::table::{self, delete_where};
use crate::text::{self, is_listed, same_text, trimmed};

verus! {

/// The models that are asked for: those of providers, and by name alone. A
/// model is looked up under its name where its provider is not in the
/// catalogue.
#[derive(Debug)]
pub struct Selection {
    pub by_provider: Vec<(String, String)>,
    pub model_ids: Vec<String>,
}

/// Whether a provider's model is one of `pairs`.
pub open spec fn has_pair(pairs: Seq<(String, String)>, provider: Seq<char>, model: Seq<char>) -> bool {
    exists|i: int|
        0 <= i < pairs.len() && (#[trigger] pairs[i]).0@ == provider && pairs[i].1@ == model
}

/// Whether a provider's model is one of `pool`.
pub open spec fn in_pool(
    pool: Seq<ActiveProviderModelConfig>,
    provider: Seq<char>,
    model: Seq<char>,
) -> bool {
    exists|i: int|
        0 <= i < pool.len() && (#[trigger] pool[i]).provider_id@ == provider && pool[i].model@ == model
}

/// Whether a model is one of `pool`, of whatever provider.
pub open spec fn names_model(pool: Seq<ActiveProviderModelConfig>, model: Seq<char>) -> bool {
    exists|i: int| 0 <= i < pool.len() && (#[trigger] pool[i]).model@ == model
}

/// A pool that may be missing.
pub open spec fn pool_of(pool: Option<Vec<ActiveProviderModelConfig>>) -> Seq<
    ActiveProviderModelConfig,
> {
    match pool {
        Some(pool) => pool@,
        None => Seq::empty(),
    }
}

/// The models of conversations, one after the other.
pub open spec fn route_models(routes: Seq<PlatformModelRoute>) -> Seq<ActiveProviderModelConfig>
    decreases routes.len(),
{
    if routes.len() == 0 {
        Seq::empty()
    } else {
        route_models(routes.drop_last()) + pool_of(routes.last().text_models) + pool_of(
            routes.last().multimodal_models,
        )
    }
}

/// The models that a configuration chooses, in all its pools.
pub open spec fn choices(config: AppConfig) -> Seq<ActiveProviderModelConfig> {
    pool_of(config.active_provider_models) + pool_of(config.active_multimodal_provider_models)
        + config.qq.text_models@ + config.qq.multimodal_models@ + config.qq.non_whitelist_text_models@
        + route_models(config.qq.conversations@) + match config.qq.real_context {
        Some(models) => models.text_models@ + models.affection_text_models@,
        None => Seq::empty(),
    }
}

/// Whether a model is the default of a provider.
pub open spec fn is_default(
    providers: Seq<ProviderConfig>,
    provider: Seq<char>,
    model: Seq<char>,
) -> bool {
    exists|i: int|
        0 <= i < providers.len() && (#[trigger] providers[i]).id@ == provider
            && providers[i].default_model@ == model
}

/// Whether a model that is more than blank is the default of some provider.
pub open spec fn names_default(providers: Seq<ProviderConfig>, model: Seq<char>) -> bool {
    text::trim(model).len() > 0 && exists|i: int|
        0 <= i < providers.len() && (#[trigger] providers[i]).default_model@ == model
}

impl Selection {
    /// Whether a provider's model is asked for.
    pub open spec fn wants(&self, provider: Seq<char>, model: Seq<char>) -> bool {
        has_pair(self.by_provider@, provider, model)
    }

    /// Whether a model is asked for by name.
    pub open spec fn wants_id(&self, model: Seq<char>) -> bool {
        text::listed(self.model_ids@, model)
    }

    /// Whether this asks for what a configuration does, and for no more.
    pub open spec fn is_of(&self, config: AppConfig) -> bool {
        &&& forall|provider: Seq<char>, model: Seq<char>| #[trigger]
            self.wants(provider, model) <==> is_default(config.providers@, provider, model)
                || in_pool(choices(config), provider, model)
        &&& forall|model: Seq<char>| #[trigger]
            self.wants_id(model) <==> names_default(config.providers@, model) || names_model(
                choices(config),
                model,
            )
    }

    /// Whether this asks for what another does.
    pub open spec fn spec_covers(&self, other: Selection) -> bool {
        &&& forall|provider: Seq<char>, model: Seq<char>| #[trigger]
            other.wants(provider, model) ==> self.wants(provider, model)
        &&& forall|model: Seq<char>| #[trigger] other.wants_id(model) ==> self.wants_id(model)
    }

    /// Asks for nothing.
    pub fn new() -> (selection: Self)
        ensures
            forall|provider: Seq<char>, model: Seq<char>| !#[trigger]
                selection.wants(provider, model),
            forall|model: Seq<char>| !#[trigger] selection.wants_id(model),
    {
        Selection { by_provider: Vec::new(), model_ids: Vec::new() }
    }

    /// Whether a provider's model is asked for.
    fn has(&self, provider: &str, model: &str) -> (r: bool)
        ensures
            r == self.wants(provider@, model@),
    {
        let mut i: usize = 0;
        while i < self.by_provider.len()
            invariant
                i <= self.by_provider@.len(),
                forall|k: int|
                    0 <= k < i ==> !((#[trigger] self.by_provider@[k]).0@ == provider@
                        && self.by_provider@[k].1@ == model@),
            decreases self.by_provider@.len() - i,
        {
            if same_text(self.by_provider[i].0.as_str(), provider) && same_text(
                self.by_provider[i].1.as_str(),
                model,
            ) {
                return true;
            }
            i += 1;
        }
        false
    }

    /// Asks for a provider's model too.
    fn ask(&mut self, provider: &String, model: &String)
        ensures
            forall|p: Seq<char>, m: Seq<char>| #[trigger]
                final(self).wants(p, m) <==> old(self).wants(p, m) || (p == provider@ && m == model@),
            forall|m: Seq<char>| #[trigger] final(self).wants_id(m) == old(self).wants_id(m),
            final(self).model_ids == old(self).model_ids,
    {
        if self.has(provider.as_str(), model.as_str()) {
            return ;
        }
        let ghost before = self.by_provider@;
        self.by_provider.push((provider.clone(), model.clone()));
        proof {
            let after = self.by_provider@;
            assert forall|p: Seq<char>, m: Seq<char>| #[trigger] self.wants(p, m) <==> old(
                self,
            ).wants(p, m) || (p == provider@ && m == model@) by {
                if old(self).wants(p, m) {
                    let i = choose|i: int|
                        0 <= i < before.len() && (#[trigger] before[i]).0@ == p && before[i].1@ == m;
                    assert(after[i].0@ == p);
                }
                if p == provider@ && m == model@ {
                    assert(after[before.len() as int].0@ == p);
                }
                if self.wants(p, m) {
                    let i = choose|i: int|
                        0 <= i < after.len() && (#[trigger] after[i]).0@ == p && after[i].1@ == m;
                    if i < before.len() {
                        assert(before[i].0@ == p);
                    }
                }
            }
        }
    }

    /// Asks for a model by name too.
    fn ask_id(&mut self, model: &String)
        ensures
            forall|m: Seq<char>| #[trigger]
                final(self).wants_id(m) <==> old(self).wants_id(m) || m == model@,
            forall|p: Seq<char>, m: Seq<char>| #[trigger]
                final(self).wants(p, m) == old(self).wants(p, m),
            final(self).by_provider == old(self).by_provider,
    {
        if is_listed(&self.model_ids, model.as_str()) {
            return ;
        }
        let ghost before = self.model_ids@;
        self.model_ids.push(model.clone());
        proof {
            let after = self.model_ids@;
            assert forall|m: Seq<char>| #[trigger] self.wants_id(m) <==> old(self).wants_id(m) || m
                == model@ by {
                if old(self).wants_id(m) {
                    let i = choose|i: int| 0 <= i < before.len() && (#[trigger] before[i])@ == m;
                    assert(after[i]@ == m);
                }
                if m == model@ {
                    assert(after[before.len() as int]@ == m);
                }
                if self.wants_id(m) {
                    let i = choose|i: int| 0 <= i < after.len() && (#[trigger] after[i])@ == m;
                    if i < before.len() {
                        assert(before[i]@ == m);
                    }
                }
            }
        }
    }

    /// Asks for the models of a pool too.
    fn ask_pool(&mut self, pool: &Vec<ActiveProviderModelConfig>)
        ensures
            forall|p: Seq<char>, m: Seq<char>| #[trigger]
                final(self).wants(p, m) <==> old(self).wants(p, m) || in_pool(pool@, p, m),
            forall|m: Seq<char>| #[trigger]
                final(self).wants_id(m) <==> old(self).wants_id(m) || names_model(pool@, m),
    {
        let mut i: usize = 0;
        while i < pool.len()
            invariant
                i <= pool@.len(),
                forall|p: Seq<char>, m: Seq<char>| #[trigger]
                    self.wants(p, m) <==> old(self).wants(p, m) || in_pool(
                        pool@.take(i as int),
                        p,
                        m,
                    ),
                forall|m: Seq<char>| #[trigger]
                    self.wants_id(m) <==> old(self).wants_id(m) || names_model(
                        pool@.take(i as int),
                        m,
                    ),
            decreases pool@.len() - i,
        {
            self.ask(&pool[i].provider_id, &pool[i].model);
            self.ask_id(&pool[i].model);
            proof {
                let one = seq![pool@[i as int]];
                assert(pool@.take(i + 1) =~= pool@.take(i as int) + one);
                assert forall|p: Seq<char>, m: Seq<char>| #[trigger] in_pool(
                    pool@.take(i + 1),
                    p,
                    m,
                ) <==> in_pool(pool@.take(i as int), p, m) || (p == pool@[i as int].provider_id@ && m
                    == pool@[i as int].model@) by {
                    lemma_pool_sum(pool@.take(i as int), one, p, m);
                    assert(one[0] == pool@[i as int]);
                }
                assert forall|m: Seq<char>| #[trigger] names_model(pool@.take(i + 1), m)
                    <==> names_model(pool@.take(i as int), m) || m == pool@[i as int].model@ by {
                    lemma_names_sum(pool@.take(i as int), one, m);
                    assert(one[0] == pool@[i as int]);
                }
            }
            i += 1;
        }
        assert(pool@.take(pool@.len() as int) =~= pool@);
    }

    /// Asks for the models of a pool too, where there is one.
    fn ask_opt(&mut self, pool: &Option<Vec<ActiveProviderModelConfig>>)
        ensures
            forall|p: Seq<char>, m: Seq<char>| #[trigger]
                final(self).wants(p, m) <==> old(self).wants(p, m) || in_pool(pool_of(*pool), p, m),
            forall|m: Seq<char>| #[trigger]
                final(self).wants_id(m) <==> old(self).wants_id(m) || names_model(pool_of(*pool), m),
    {
        if let Some(pool) = pool {
            self.ask_pool(pool);
        }
    }

    /// Asks for the models of conversations too.
    fn ask_routes(&mut self, routes: &Vec<PlatformModelRoute>)
        ensures
            forall|p: Seq<char>, m: Seq<char>| #[trigger]
                final(self).wants(p, m) <==> old(self).wants(p, m) || in_pool(
                    route_models(routes@),
                    p,
                    m,
                ),
            forall|m: Seq<char>| #[trigger]
                final(self).wants_id(m) <==> old(self).wants_id(m) || names_model(
                    route_models(routes@),
                    m,
                ),
    {
        let mut i: usize = 0;
        proof {
            assert(routes@.take(0) =~= Seq::empty());
        }
        while i < routes.len()
            invariant
                i <= routes@.len(),
                forall|p: Seq<char>, m: Seq<char>| #[trigger]
                    self.wants(p, m) <==> old(self).wants(p, m) || in_pool(
                        route_models(routes@.take(i as int)),
                        p,
                        m,
                    ),
                forall|m: Seq<char>| #[trigger]
                    self.wants_id(m) <==> old(self).wants_id(m) || names_model(
                        route_models(routes@.take(i as int)),
                        m,
                    ),
            decreases routes@.len() - i,
        {
            self.ask_opt(&routes[i].text_models);
            self.ask_opt(&routes[i].multimodal_models);
            proof {
                let row = routes@[i as int];
                let seen = route_models(routes@.take(i as int));
                assert(routes@.take(i + 1).drop_last() =~= routes@.take(i as int));
                assert(routes@.take(i + 1).last() == row);
                assert forall|p: Seq<char>, m: Seq<char>| #[trigger] in_pool(
                    route_models(routes@.take(i + 1)),
                    p,
                    m,
                ) <==> in_pool(seen, p, m) || in_pool(pool_of(row.text_models), p, m) || in_pool(
                    pool_of(row.multimodal_models),
                    p,
                    m,
                ) by {
                    lemma_pool_sum(seen, pool_of(row.text_models), p, m);
                    lemma_pool_sum(
                        seen + pool_of(row.text_models),
                        pool_of(row.multimodal_models),
                        p,
                        m,
                    );
                }
                assert forall|m: Seq<char>| #[trigger] names_model(
                    route_models(routes@.take(i + 1)),
                    m,
                ) <==> names_model(seen, m) || names_model(pool_of(row.text_models), m)
                    || names_model(pool_of(row.multimodal_models), m) by {
                    lemma_names_sum(seen, pool_of(row.text_models), m);
                    lemma_names_sum(
                        seen + pool_of(row.text_models),
                        pool_of(row.multimodal_models),
                        m,
                    );
                }
            }
            i += 1;
        }
        assert(routes@.take(routes@.len() as int) =~= routes@);
    }

    /// Asks for the default models of providers too.
    fn ask_defaults(&mut self, providers: &Vec<ProviderConfig>)
        ensures
            forall|p: Seq<char>, m: Seq<char>| #[trigger]
                final(self).wants(p, m) <==> old(self).wants(p, m) || is_default(
                    providers@,
                    p,
                    m,
                ),
            forall|m: Seq<char>| #[trigger]
                final(self).wants_id(m) <==> old(self).wants_id(m) || names_default(
                    providers@,
                    m,
                ),
    {
        let mut i: usize = 0;
        while i < providers.len()
            invariant
                i <= providers@.len(),
                forall|p: Seq<char>, m: Seq<char>| #[trigger]
                    self.wants(p, m) <==> old(self).wants(p, m) || is_default(
                        providers@.take(i as int),
                        p,
                        m,
                    ),
                forall|m: Seq<char>| #[trigger]
                    self.wants_id(m) <==> old(self).wants_id(m) || names_default(
                        providers@.take(i as int),
                        m,
                    ),
            decreases providers@.len() - i,
        {
            let provider = &providers[i];
            self.ask(&provider.id, &provider.default_model);
            if trimmed(provider.default_model.as_str()).as_str().unicode_len() > 0 {
                self.ask_id(&provider.default_model);
            }
            proof {
                let seen = providers@.take(i as int);
                let now = providers@.take(i + 1);
                assert forall|p: Seq<char>, m: Seq<char>| #[trigger] is_default(now, p, m)
                    <==> is_default(seen, p, m) || (p == provider.id@ && m
                    == provider.default_model@) by {
                    if is_default(seen, p, m) {
                        let k = choose|k: int|
                            0 <= k < seen.len() && (#[trigger] seen[k]).id@ == p
                                && seen[k].default_model@ == m;
                        assert(now[k] == seen[k]);
                    }
                    if p == provider.id@ && m == provider.default_model@ {
                        assert(now[i as int].id@ == p);
                    }
                    if is_default(now, p, m) {
                        let k = choose|k: int|
                            0 <= k < now.len() && (#[trigger] now[k]).id@ == p
                                && now[k].default_model@ == m;
                        if k < i {
                            assert(seen[k] == now[k]);
                        }
                    }
                }
                assert forall|m: Seq<char>| #[trigger] names_default(now, m) <==> names_default(
                    seen,
                    m,
                ) || (m == provider.default_model@ && text::trim(m).len() > 0) by {
                    if names_default(seen, m) {
                        let k = choose|k: int|
                            0 <= k < seen.len() && (#[trigger] seen[k]).default_model@ == m;
                        assert(now[k] == seen[k]);
                    }
                    if m == provider.default_model@ {
                        assert(now[i as int].default_model@ == m);
                    }
                    if names_default(now, m) {
                        let k = choose|k: int|
                            0 <= k < now.len() && (#[trigger] now[k]).default_model@ == m;
                        if k < i {
                            assert(seen[k] == now[k]);
                        }
                    }
                }
            }
            i += 1;
        }
        assert(providers@.take(providers@.len() as int) =~= providers@);
    }

    /// Asks for what a configuration does too.
    fn ask_all(&mut self, config: &AppConfig)
        ensures
            forall|p: Seq<char>, m: Seq<char>| #[trigger]
                final(self).wants(p, m) <==> old(self).wants(p, m) || is_default(
                    config.providers@,
                    p,
                    m,
                ) || in_pool(choices(*config), p, m),
            forall|m: Seq<char>| #[trigger]
                final(self).wants_id(m) <==> old(self).wants_id(m) || names_default(
                    config.providers@,
                    m,
                ) || names_model(choices(*config), m),
    {
        self.ask_defaults(&config.providers);
        self.ask_opt(&config.active_provider_models);
        self.ask_opt(&config.active_multimodal_provider_models);
        self.ask_pool(&config.qq.text_models);
        self.ask_pool(&config.qq.multimodal_models);
        self.ask_pool(&config.qq.non_whitelist_text_models);
        self.ask_routes(&config.qq.conversations);
        if let Some(models) = &config.qq.real_context {
            self.ask_pool(&models.text_models);
            self.ask_pool(&models.affection_text_models);
        }
        proof {
            let a = pool_of(config.active_provider_models);
            let b = pool_of(config.active_multimodal_provider_models);
            let c = config.qq.text_models@;
            let d = config.qq.multimodal_models@;
            let e = config.qq.non_whitelist_text_models@;
            let f = route_models(config.qq.conversations@);
            let (g, h) = match &config.qq.real_context {
                Some(models) => (models.text_models@, models.affection_text_models@),
                None => (Seq::empty(), Seq::empty()),
            };
            assert(choices(*config) =~= a + b + c + d + e + f + (g + h));
            assert forall|p: Seq<char>, m: Seq<char>| #[trigger] in_pool(choices(*config), p, m)
                <==> in_pool(a, p, m) || in_pool(b, p, m) || in_pool(c, p, m) || in_pool(d, p, m)
                || in_pool(e, p, m) || in_pool(f, p, m) || in_pool(g, p, m) || in_pool(h, p, m) by {
                lemma_pool_sum(a, b, p, m);
                lemma_pool_sum(a + b, c, p, m);
                lemma_pool_sum(a + b + c, d, p, m);
                lemma_pool_sum(a + b + c + d, e, p, m);
                lemma_pool_sum(a + b + c + d + e, f, p, m);
                lemma_pool_sum(g, h, p, m);
                lemma_pool_sum(a + b + c + d + e + f, g + h, p, m);
            }
            assert forall|m: Seq<char>| #[trigger] names_model(choices(*config), m)
                <==> names_model(a, m) || names_model(b, m) || names_model(c, m) || names_model(d, m)
                || names_model(e, m) || names_model(f, m) || names_model(g, m) || names_model(h, m) by {
                lemma_names_sum(a, b, m);
                lemma_names_sum(a + b, c, m);
                lemma_names_sum(a + b + c, d, m);
                lemma_names_sum(a + b + c + d, e, m);
                lemma_names_sum(a + b + c + d + e, f, m);
                lemma_names_sum(g, h, m);
                lemma_names_sum(a + b + c + d + e + f, g + h, m);
            }
        }
    }

    /// What a configuration asks for: the default model of each provider, and
    /// the models of all pools.
    pub fn of(config: &AppConfig) -> (selection: Self)
        ensures
            selection.is_of(*config),
    {
        let mut selection = Selection::new();
        selection.ask_all(config);
        selection
    }

    /// Whether this asks for what another does.
    pub fn covers(&self, other: &Selection) -> (r: bool)
        ensures
            r == self.spec_covers(*other),
    {
        let mut i: usize = 0;
        while i < other.by_provider.len()
            invariant
                i <= other.by_provider@.len(),
                forall|k: int|
                    0 <= k < i ==> self.wants(
                        (#[trigger] other.by_provider@[k]).0@,
                        other.by_provider@[k].1@,
                    ),
            decreases other.by_provider@.len() - i,
        {
            let pair = &other.by_provider[i];
            if !self.has(pair.0.as_str(), pair.1.as_str()) {
                assert(other.wants(other.by_provider@[i as int].0@, other.by_provider@[i as int].1@));
                return false;
            }
            i += 1;
        }
        let mut k: usize = 0;
        while k < other.model_ids.len()
            invariant
                k <= other.model_ids@.len(),
                forall|n: int| 0 <= n < k ==> self.wants_id((#[trigger] other.model_ids@[n])@),
            decreases other.model_ids@.len() - k,
        {
            if !is_listed(&self.model_ids, other.model_ids[k].as_str()) {
                assert(other.wants_id(other.model_ids@[k as int]@));
                return false;
            }
            k += 1;
        }
        true
    }

    /// Asks for what another does too.
    pub fn merge(&mut self, other: Selection)
        ensures
            is_merged(*old(self), other, *final(self)),
    {
        let mut i: usize = 0;
        while i < other.by_provider.len()
            invariant
                i <= other.by_provider@.len(),
                forall|p: Seq<char>, m: Seq<char>| #[trigger]
                    self.wants(p, m) <==> old(self).wants(p, m) || has_pair(
                        other.by_provider@.take(i as int),
                        p,
                        m,
                    ),
                self.model_ids == old(self).model_ids,
            decreases other.by_provider@.len() - i,
        {
            self.ask(&other.by_provider[i].0, &other.by_provider[i].1);
            proof {
                let seen = other.by_provider@.take(i as int);
                let now = other.by_provider@.take(i + 1);
                let one = other.by_provider@[i as int];
                assert forall|p: Seq<char>, m: Seq<char>| #[trigger] has_pair(now, p, m)
                    <==> has_pair(seen, p, m) || (p == one.0@ && m == one.1@) by {
                    if has_pair(seen, p, m) {
                        let k = choose|k: int|
                            0 <= k < seen.len() && (#[trigger] seen[k]).0@ == p && seen[k].1@ == m;
                        assert(now[k] == seen[k]);
                    }
                    if p == one.0@ && m == one.1@ {
                        assert(now[i as int].0@ == p);
                    }
                    if has_pair(now, p, m) {
                        let k = choose|k: int|
                            0 <= k < now.len() && (#[trigger] now[k]).0@ == p && now[k].1@ == m;
                        if k < i {
                            assert(seen[k] == now[k]);
                        }
                    }
                }
            }
            i += 1;
        }
        assert(other.by_provider@.take(other.by_provider@.len() as int) =~= other.by_provider@);
        let mut k: usize = 0;
        while k < other.model_ids.len()
            invariant
                k <= other.model_ids@.len(),
                forall|p: Seq<char>, m: Seq<char>| #[trigger]
                    self.wants(p, m) <==> old(self).wants(p, m) || other.wants(p, m),
                forall|m: Seq<char>| #[trigger]
                    self.wants_id(m) <==> old(self).wants_id(m) || text::listed(
                        other.model_ids@.take(k as int),
                        m,
                    ),
            decreases other.model_ids@.len() - k,
        {
            let ghost before = *self;
            self.ask_id(&other.model_ids[k]);
            proof {
                assert(self.by_provider == before.by_provider);
                assert forall|p: Seq<char>, m: Seq<char>| #[trigger] self.wants(p, m) <==> old(
                    self,
                ).wants(p, m) || other.wants(p, m) by {
                    assert(self.wants(p, m) == before.wants(p, m));
                }
                let seen = other.model_ids@.take(k as int);
                let now = other.model_ids@.take(k + 1);
                let one = other.model_ids@[k as int];
                assert forall|m: Seq<char>| #[trigger] text::listed(now, m) <==> text::listed(
                    seen,
                    m,
                ) || m == one@ by {
                    if text::listed(seen, m) {
                        let n = choose|n: int| 0 <= n < seen.len() && (#[trigger] seen[n])@ == m;
                        assert(now[n] == seen[n]);
                    }
                    if m == one@ {
                        assert(now[k as int]@ == m);
                    }
                    if text::listed(now, m) {
                        let n = choose|n: int| 0 <= n < now.len() && (#[trigger] now[n])@ == m;
                        if n < k {
                            assert(seen[n] == now[n]);
                        }
                    }
                }
            }
            k += 1;
        }
        assert(other.model_ids@.take(other.model_ids@.len() as int) =~= other.model_ids@);
    }

    /// A copy of the selection.
    pub fn copy(&self) -> (r: Self)
        ensures
            r.by_provider@ == self.by_provider@,
            r.model_ids@ == self.model_ids@,
    {
        let mut by_provider: Vec<(String, String)> = Vec::new();
        let mut i: usize = 0;
        while i < self.by_provider.len()
            invariant
                i <= self.by_provider@.len(),
                by_provider@ =~= self.by_provider@.take(i as int),
            decreases self.by_provider@.len() - i,
        {
            by_provider.push((self.by_provider[i].0.clone(), self.by_provider[i].1.clone()));
            i += 1;
        }
        let mut model_ids: Vec<String> = Vec::new();
        let mut k: usize = 0;
        while k < self.model_ids.len()
            invariant
                k <= self.model_ids@.len(),
                model_ids@ =~= self.model_ids@.take(k as int),
            decreases self.model_ids@.len() - k,
        {
            model_ids.push(self.model_ids[k].clone());
            k += 1;
        }
        Selection { by_provider, model_ids }
    }
}

/// Whether `after` asks for what `before` and `other` do.
pub open spec fn is_merged(before: Selection, other: Selection, after: Selection) -> bool {
    &&& forall|p: Seq<char>, m: Seq<char>| #[trigger]
        after.wants(p, m) <==> before.wants(p, m) || other.wants(p, m)
    &&& forall|m: Seq<char>| #[trigger]
        after.wants_id(m) <==> before.wants_id(m) || other.wants_id(m)
}

/// What is in two pools one after the other is in one of them.
proof fn lemma_pool_sum(
    a: Seq<ActiveProviderModelConfig>,
    b: Seq<ActiveProviderModelConfig>,
    p: Seq<char>,
    m: Seq<char>,
)
    ensures
        in_pool(a + b, p, m) <==> in_pool(a, p, m) || in_pool(b, p, m),
{
    let all = a + b;
    if in_pool(a, p, m) {
        let i = choose|i: int|
            0 <= i < a.len() && (#[trigger] a[i]).provider_id@ == p && a[i].model@ == m;
        assert(all[i] == a[i]);
    }
    if in_pool(b, p, m) {
        let i = choose|i: int|
            0 <= i < b.len() && (#[trigger] b[i]).provider_id@ == p && b[i].model@ == m;
        assert(all[a.len() + i] == b[i]);
    }
    if in_pool(all, p, m) {
        let i = choose|i: int|
            0 <= i < all.len() && (#[trigger] all[i]).provider_id@ == p && all[i].model@ == m;
        if i < a.len() {
            assert(a[i] == all[i]);
        } else {
            assert(b[i - a.len()] == all[i]);
        }
    }
}

/// What is named in two pools one after the other is named in one of them.
proof fn lemma_names_sum(
    a: Seq<ActiveProviderModelConfig>,
    b: Seq<ActiveProviderModelConfig>,
    m: Seq<char>,
)
    ensures
        names_model(a + b, m) <==> names_model(a, m) || names_model(b, m),
{
    let all = a + b;
    if names_model(a, m) {
        let i = choose|i: int| 0 <= i < a.len() && (#[trigger] a[i]).model@ == m;
        assert(all[i] == a[i]);
    }
    if names_model(b, m) {
        let i = choose|i: int| 0 <= i < b.len() && (#[trigger] b[i]).model@ == m;
        assert(all[a.len() + i] == b[i]);
    }
    if names_model(all, m) {
        let i = choose|i: int| 0 <= i < all.len() && (#[trigger] all[i]).model@ == m;
        if i < a.len() {
            assert(a[i] == all[i]);
        } else {
            assert(b[i - a.len()] == all[i]);
        }
    }
}

// ---------------------------------------------------------------------------
// The catalogue
// ---------------------------------------------------------------------------

/// A provider of the catalogue with what is known of its models.
#[derive(Debug)]
pub struct ProviderModels<V> {
    pub id: String,
    pub models: Vec<(String, V)>,
}

/// Whether a model of a provider is kept.
pub open spec fn keeps(selection: Selection, provider: Seq<char>, model: Seq<char>) -> bool {
    selection.wants(provider, model) || selection.wants_id(model)
}

/// The models of a provider that are kept.
pub open spec fn kept_models<V>(
    selection: Selection,
    provider: Seq<char>,
    models: Seq<(String, V)>,
) -> Seq<(String, V)> {
    models.filter(|entry: (String, V)| keeps(selection, provider, entry.0@))
}

/// Whether `after` is `before` with only the models that are kept, and without
/// the providers of which none is.
pub open spec fn is_retained<V>(
    selection: Selection,
    before: Seq<ProviderModels<V>>,
    after: Seq<ProviderModels<V>>,
) -> bool
    decreases before.len(),
{
    if before.len() == 0 {
        after.len() == 0
    } else {
        let kept = kept_models(selection, before.last().id@, before.last().models@);
        if kept.len() == 0 {
            is_retained(selection, before.drop_last(), after)
        } else {
            after.len() > 0 && after.last().id == before.last().id && after.last().models@ == kept
                && is_retained(selection, before.drop_last(), after.drop_last())
        }
    }
}

/// Keeps the models of a provider that are asked for.
fn retain_models<V>(selection: &Selection, provider: &str, models: &mut Vec<(String, V)>)
    ensures
        final(models)@ == kept_models(*selection, provider@, old(models)@),
{
    let ghost gone = |entry: (String, V)| !keeps(*selection, provider@, entry.0@);
    let test = |entry: &(String, V)| -> (r: bool)
        ensures
            r == !keeps(*selection, provider@, entry.0@),
    {
        !(selection.has(provider, entry.0.as_str()) || is_listed(
            &selection.model_ids,
            entry.0.as_str(),
        ))
    };
    delete_where(models, test, Ghost(gone));
    proof {
        let kept = |entry: (String, V)| keeps(*selection, provider@, entry.0@);
        assert((|entry: (String, V)| !gone(entry)) =~= kept);
    }
}

impl Selection {
    /// Keeps the models that are asked for, and the providers of which some
    /// are.
    pub fn retain<V>(&self, data: &mut Vec<ProviderModels<V>>)
        ensures
            is_retained(*self, old(data)@, final(data)@),
    {
        let ghost before = data@;
        let ghost mut done: int = 0;
        let mut i: usize = 0;
        proof {
            assert(before.take(0) =~= Seq::empty());
            assert(data@.take(0) =~= Seq::empty());
        }
        while i < data.len()
            invariant
                i <= data@.len(),
                0 <= done <= before.len(),
                data@.len() - i == before.len() - done,
                data@.skip(i as int) =~= before.skip(done),
                is_retained(*self, before.take(done), data@.take(i as int)),
            decreases before.len() - done,
        {
            let ghost here = data@;
            proof {
                assert(here.skip(i as int)[0] == before.skip(done)[0]);
                assert(before.take(done + 1).drop_last() =~= before.take(done));
                assert(before.take(done + 1).last() == before[done]);
            }
            let provider = data[i].id.clone();
            let entry = &mut data[i];
            retain_models(self, provider.as_str(), &mut entry.models);
            let ghost kept = data@;
            proof {
                assert(kept =~= here.update(i as int, kept[i as int]));
                assert(kept.skip(i + 1) =~= before.skip(done + 1)) by {
                    let tail = kept.skip(i + 1);
                    assert forall|k: int| 0 <= k < kept.len() - i - 1 implies #[trigger] tail[k]
                        == before.skip(done + 1)[k] by {
                        assert(kept[i + 1 + k] == here[i + 1 + k]);
                        assert(here.skip(i as int)[k + 1] == before.skip(done)[k + 1]);
                    }
                }
                assert(kept.take(i as int) =~= here.take(i as int));
            }
            if data[i].models.len() == 0 {
                data.remove(i);
                proof {
                    assert(data@.take(i as int) =~= kept.take(i as int));
                    assert(data@.skip(i as int) =~= kept.skip(i + 1));
                }
            } else {
                i += 1;
                proof {
                    assert(data@.take(i as int).drop_last() =~= kept.take(i - 1));
                    assert(data@.take(i as int).last() == kept[i - 1]);
                }
            }
            proof {
                done = done + 1;
            }
        }
        proof {
            assert(before.take(done) =~= before);
            assert(data@.take(i as int) =~= data@);
        }
    }
}

/// The catalogue of the process, and what was asked for so far.
#[derive(Debug)]
pub struct Catalogue<V> {
    pub loaded: Option<Vec<ProviderModels<V>>>,
    /// What the loaded catalogue was cut to, where it was cut.
    pub pruned_to: Option<Selection>,
    /// What was asked for since the process started.
    pub wanted: Selection,
}

/// Whether `after` asks for what `before` does and what a configuration does.
pub open spec fn grown(before: Selection, config: AppConfig, after: Selection) -> bool {
    &&& forall|p: Seq<char>, m: Seq<char>| #[trigger]
        after.wants(p, m) <==> before.wants(p, m) || is_default(config.providers@, p, m) || in_pool(
            choices(config),
            p,
            m,
        )
    &&& forall|m: Seq<char>| #[trigger]
        after.wants_id(m) <==> before.wants_id(m) || names_default(config.providers@, m)
            || names_model(choices(config), m)
}

/// Whether `after` is `before` once it was noted what a configuration asks
/// for, and `reload` says whether the catalogue has to be read again.
pub open spec fn is_noted<V>(
    before: Catalogue<V>,
    config: AppConfig,
    after: Catalogue<V>,
    reload: bool,
) -> bool {
    &&& grown(before.wanted, config, after.wanted)
    &&& after.loaded == before.loaded
    &&& after.pruned_to == before.pruned_to
    &&& reload == !after.suffices()
}

/// Whether `after` is `before` once a catalogue was taken that was cut to what
/// was asked for so far and what a configuration asks for.
pub open spec fn is_cut<V>(
    before: Catalogue<V>,
    fresh: Seq<ProviderModels<V>>,
    config: AppConfig,
    after: Catalogue<V>,
) -> bool {
    &&& grown(before.wanted, config, after.wanted)
    &&& match after.loaded {
        Some(loaded) => is_retained(after.wanted, fresh, loaded@),
        None => false,
    }
    &&& match after.pruned_to {
        Some(pruned_to) => pruned_to.by_provider@ == after.wanted.by_provider@
            && pruned_to.model_ids@ == after.wanted.model_ids@,
        None => false,
    }
    &&& after.suffices()
}

impl<V> Catalogue<V> {
    /// Before anything was loaded or asked for.
    pub fn new() -> (catalogue: Self)
        ensures
            catalogue.loaded is None,
            catalogue.pruned_to is None,
            forall|p: Seq<char>, m: Seq<char>| !#[trigger] catalogue.wanted.wants(p, m),
            forall|m: Seq<char>| !#[trigger] catalogue.wanted.wants_id(m),
    {
        Catalogue { loaded: None, pruned_to: None, wanted: Selection::new() }
    }

    /// Whether the loaded catalogue has what was asked for so far. One that
    /// was not cut has everything.
    pub open spec fn suffices(&self) -> bool {
        self.loaded is Some && match self.pruned_to {
            None => true,
            Some(pruned_to) => pruned_to.spec_covers(self.wanted),
        }
    }

    /// Notes what a configuration asks for, and says whether the catalogue has
    /// to be read again.
    pub fn want(&mut self, config: &AppConfig) -> (reload: bool)
        ensures
            is_noted(*old(self), *config, *final(self), reload),
    {
        self.wanted.merge(Selection::of(config));
        if self.loaded.is_none() {
            return true;
        }
        match &self.pruned_to {
            None => false,
            Some(pruned_to) => !pruned_to.covers(&self.wanted),
        }
    }

    /// Takes a catalogue that was read, cut to what was asked for so far and
    /// what a configuration asks for.
    pub fn install_pruned(&mut self, fresh: Vec<ProviderModels<V>>, config: &AppConfig)
        ensures
            is_cut(*old(self), fresh@, *config, *final(self)),
    {
        self.wanted.merge(Selection::of(config));
        let mut data = fresh;
        self.wanted.retain(&mut data);
        let cut = self.wanted.copy();
        proof {
            assert forall|p: Seq<char>, m: Seq<char>| #[trigger] self.wanted.wants(
                p,
                m,
            ) implies cut.wants(p, m) by {}
            assert forall|m: Seq<char>| #[trigger] self.wanted.wants_id(m) implies cut.wants_id(m) by {}
        }
        self.pruned_to = Some(cut);
        self.loaded = Some(data);
    }

    /// Takes a whole catalogue.
    pub fn install_full(&mut self, fresh: Vec<ProviderModels<V>>)
        ensures
            final(self).loaded == Some(fresh),
            final(self).pruned_to is None,
            final(self).wanted == old(self).wanted,
            final(self).suffices(),
    {
        self.pruned_to = None;
        self.loaded = Some(fresh);
    }
}

// ---------------------------------------------------------------------------
// Laws
// ---------------------------------------------------------------------------

/// What was asked for once is asked for from then on: a catalogue that is cut
/// later, for whatever configuration, keeps it.
pub proof fn what_was_asked_for_is_kept(
    before: Selection,
    config: AppConfig,
    after: Selection,
    p: Seq<char>,
    m: Seq<char>,
)
    requires
        grown(before, config, after),
        keeps(before, p, m),
    ensures
        keeps(after, p, m),
{
    assert(before.wants(p, m) ==> after.wants(p, m));
    assert(before.wants_id(m) ==> after.wants_id(m));
}

/// Asking for the same again does not make the catalogue be read again: it
/// asks for no more.
pub proof fn asking_again_asks_for_no_more(before: Selection, config: AppConfig, after: Selection, again: Selection)
    requires
        grown(before, config, after),
        grown(after, config, again),
    ensures
        after.spec_covers(again),
{
    assert forall|p: Seq<char>, m: Seq<char>| #[trigger] again.wants(p, m) implies after.wants(
        p,
        m,
    ) by {}
    assert forall|m: Seq<char>| #[trigger] again.wants_id(m) implies after.wants_id(m) by {}
}

/// Whether a configuration names a model in one of its pools.
pub open spec fn is_chosen(config: AppConfig, entry: ActiveProviderModelConfig) -> bool {
    ||| config.active_provider_models matches Some(pool) && pool@.contains(entry)
    ||| config.active_multimodal_provider_models matches Some(pool) && pool@.contains(entry)
    ||| config.qq.text_models@.contains(entry)
    ||| config.qq.multimodal_models@.contains(entry)
    ||| config.qq.non_whitelist_text_models@.contains(entry)
    ||| is_routed(config.qq.conversations@, entry)
    ||| config.qq.real_context matches Some(models) && (models.text_models@.contains(entry)
        || models.affection_text_models@.contains(entry))
}

/// Whether a conversation has a model.
pub open spec fn is_routed(
    routes: Seq<PlatformModelRoute>,
    entry: ActiveProviderModelConfig,
) -> bool {
    exists|i: int| 0 <= i < routes.len() && goes_to(#[trigger] routes[i], entry)
}

/// Whether a conversation has a model, for text or for more.
pub open spec fn goes_to(route: PlatformModelRoute, entry: ActiveProviderModelConfig) -> bool {
    ||| route.text_models matches Some(pool) && pool@.contains(entry)
    ||| route.multimodal_models matches Some(pool) && pool@.contains(entry)
}

proof fn lemma_sum_contains<T>(a: Seq<T>, b: Seq<T>, x: T)
    ensures
        (a + b).contains(x) == (a.contains(x) || b.contains(x)),
{
    vstd::seq_lib::lemma_seq_concat_contains_all_elements(a, b, x);
}

proof fn lemma_routed(routes: Seq<PlatformModelRoute>, entry: ActiveProviderModelConfig)
    ensures
        route_models(routes).contains(entry) == is_routed(routes, entry),
    decreases routes.len(),
{
    if routes.len() > 0 {
        let less = routes.drop_last();
        let last = routes.last();
        lemma_routed(less, entry);
        lemma_sum_contains(route_models(less), pool_of(last.text_models), entry);
        lemma_sum_contains(
            route_models(less) + pool_of(last.text_models),
            pool_of(last.multimodal_models),
            entry,
        );
        if is_routed(less, entry) {
            let i = choose|i: int| 0 <= i < less.len() && goes_to(#[trigger] less[i], entry);
            assert(goes_to(routes[i], entry));
        }
        if goes_to(last, entry) {
            assert(goes_to(routes[routes.len() - 1], entry));
        }
        if is_routed(routes, entry) {
            let i = choose|i: int| 0 <= i < routes.len() && goes_to(#[trigger] routes[i], entry);
            if i < less.len() {
                assert(goes_to(less[i], entry));
            }
        }
    }
}

proof fn lemma_choices(config: AppConfig, entry: ActiveProviderModelConfig)
    ensures
        choices(config).contains(entry) == is_chosen(config, entry),
{
    let a = pool_of(config.active_provider_models);
    let b = pool_of(config.active_multimodal_provider_models);
    let c = config.qq.text_models@;
    let d = config.qq.multimodal_models@;
    let e = config.qq.non_whitelist_text_models@;
    let f = route_models(config.qq.conversations@);
    let g = match config.qq.real_context {
        Some(models) => models.text_models@ + models.affection_text_models@,
        None => Seq::empty(),
    };
    lemma_sum_contains(a, b, entry);
    lemma_sum_contains(a + b, c, entry);
    lemma_sum_contains(a + b + c, d, entry);
    lemma_sum_contains(a + b + c + d, e, entry);
    lemma_sum_contains(a + b + c + d + e, f, entry);
    lemma_sum_contains(a + b + c + d + e + f, g, entry);
    lemma_routed(config.qq.conversations@, entry);
    if let Some(models) = config.qq.real_context {
        lemma_sum_contains(models.text_models@, models.affection_text_models@, entry);
    }
}

/// Every model that a configuration names in a pool is asked for, of its
/// provider and by name; so is the default model of every provider, by name
/// where it is more than blank.
pub proof fn every_choice_is_asked_for(
    config: &AppConfig,
    selection: Selection,
    entry: ActiveProviderModelConfig,
    p: int,
)
    requires
        call_ensures(Selection::of, (config,), selection),
    ensures
        is_chosen(*config, entry) ==> (exists|i: int|
            0 <= i < selection.by_provider@.len() && (#[trigger] selection.by_provider@[i]).0@
                == entry.provider_id@ && selection.by_provider@[i].1@ == entry.model@) && (exists|
            i: int,
        |
            0 <= i < selection.model_ids@.len() && (#[trigger] selection.model_ids@[i])@
                == entry.model@),
        0 <= p < config.providers@.len() ==> exists|i: int|
            0 <= i < selection.by_provider@.len() && (#[trigger] selection.by_provider@[i]).0@
                == config.providers@[p].id@ && selection.by_provider@[i].1@
                == config.providers@[p].default_model@,
        0 <= p < config.providers@.len() && text::trim(config.providers@[p].default_model@).len() > 0
            ==> exists|i: int|
            0 <= i < selection.model_ids@.len() && (#[trigger] selection.model_ids@[i])@
                == config.providers@[p].default_model@,
{
    assert(selection.is_of(*config));
    if is_chosen(*config, entry) {
        lemma_choices(*config, entry);
        let i = choose|i: int| 0 <= i < choices(*config).len() && choices(*config)[i] == entry;
        assert(choices(*config)[i].model@ == entry.model@);
        assert(in_pool(choices(*config), entry.provider_id@, entry.model@));
        assert(names_model(choices(*config), entry.model@));
        assert(selection.wants(entry.provider_id@, entry.model@));
        assert(selection.wants_id(entry.model@));
    }
    if 0 <= p < config.providers@.len() {
        let provider = config.providers@[p];
        assert(is_default(config.providers@, provider.id@, provider.default_model@));
        assert(selection.wants(provider.id@, provider.default_model@));
        if text::trim(provider.default_model@).len() > 0 {
            assert(names_default(config.providers@, provider.default_model@));
            assert(selection.wants_id(provider.default_model@));
        }
    }
}

/// Nothing is asked for but what is named in a pool or is a default.
pub proof fn only_choices_are_asked_for(config: &AppConfig, selection: Selection, i: int)
    requires
        call_ensures(Selection::of, (config,), selection),
    ensures
        0 <= i < selection.by_provider@.len() ==> {
            let pair = selection.by_provider@[i];
            ||| exists|entry: ActiveProviderModelConfig| #[trigger]
                is_chosen(*config, entry) && entry.provider_id@ == pair.0@ && entry.model@ == pair.1@
            ||| exists|p: int|
                0 <= p < config.providers@.len() && (#[trigger] config.providers@[p]).id@ == pair.0@
                    && config.providers@[p].default_model@ == pair.1@
        },
        0 <= i < selection.model_ids@.len() ==> {
            let model = selection.model_ids@[i]@;
            ||| exists|entry: ActiveProviderModelConfig| #[trigger]
                is_chosen(*config, entry) && entry.model@ == model
            ||| text::trim(model).len() > 0 && exists|p: int|
                0 <= p < config.providers@.len() && (#[trigger] config.providers@[p]).default_model@
                    == model
        },
{
    assert(selection.is_of(*config));
    let pool = choices(*config);
    if 0 <= i < selection.by_provider@.len() {
        let pair = selection.by_provider@[i];
        assert(selection.wants(pair.0@, pair.1@));
        if in_pool(pool, pair.0@, pair.1@) {
            let k = choose|k: int|
                0 <= k < pool.len() && (#[trigger] pool[k]).provider_id@ == pair.0@ && pool[k].model@
                    == pair.1@;
            assert(pool.contains(pool[k]));
            lemma_choices(*config, pool[k]);
            assert(is_chosen(*config, pool[k]));
        }
    }
    if 0 <= i < selection.model_ids@.len() {
        let model = selection.model_ids@[i]@;
        assert(selection.wants_id(model));
        if names_model(pool, model) {
            let k = choose|k: int| 0 <= k < pool.len() && (#[trigger] pool[k]).model@ == model;
            assert(pool.contains(pool[k]));
            lemma_choices(*config, pool[k]);
            assert(is_chosen(*config, pool[k]));
        }
    }
}

/// One selection covers another where each pair and each name of the latter is
/// among its own, and only there.
pub proof fn what_is_covered_is_held(a: &Selection, b: &Selection, covers: bool)
    requires
        call_ensures(Selection::covers, (a, b), covers),
    ensures
        covers <==> (forall|i: int|
            0 <= i < b.by_provider@.len() ==> #[trigger] holds_pair(*a, b.by_provider@[i])) && (
        forall|i: int|
            0 <= i < b.model_ids@.len() ==> #[trigger] holds_name(*a, b.model_ids@[i])),
{
    assert(covers == a.spec_covers(*b));
    if covers {
        assert forall|i: int| 0 <= i < b.by_provider@.len() implies #[trigger] holds_pair(
            *a,
            b.by_provider@[i],
        ) by {
            assert(b.wants(b.by_provider@[i].0@, b.by_provider@[i].1@));
            assert(a.wants(b.by_provider@[i].0@, b.by_provider@[i].1@));
        }
        assert forall|i: int| 0 <= i < b.model_ids@.len() implies #[trigger] holds_name(
            *a,
            b.model_ids@[i],
        ) by {
            assert(b.wants_id(b.model_ids@[i]@));
            assert(a.wants_id(b.model_ids@[i]@));
        }
    }
    if (forall|i: int| 0 <= i < b.by_provider@.len() ==> #[trigger] holds_pair(*a, b.by_provider@[i]))
        && (forall|i: int| 0 <= i < b.model_ids@.len() ==> #[trigger] holds_name(*a, b.model_ids@[i])) {
        assert forall|provider: Seq<char>, model: Seq<char>| #[trigger]
            b.wants(provider, model) implies a.wants(provider, model) by {
            let i = choose|i: int|
                0 <= i < b.by_provider@.len() && (#[trigger] b.by_provider@[i]).0@ == provider
                    && b.by_provider@[i].1@ == model;
            assert(holds_pair(*a, b.by_provider@[i]));
        }
        assert forall|model: Seq<char>| #[trigger] b.wants_id(model) implies a.wants_id(model) by {
            let i = choose|i: int| 0 <= i < b.model_ids@.len() && (#[trigger] b.model_ids@[i])@ == model;
            assert(holds_name(*a, b.model_ids@[i]));
        }
    }
}

/// Whether a selection has a provider and a model side by side.
pub open spec fn holds_pair(selection: Selection, pair: (String, String)) -> bool {
    exists|j: int|
        0 <= j < selection.by_provider@.len() && (#[trigger] selection.by_provider@[j]).0@ == pair.0@
            && selection.by_provider@[j].1@ == pair.1@
}

/// Whether a selection has a model by name.
pub open spec fn holds_name(selection: Selection, model: String) -> bool {
    exists|j: int|
        0 <= j < selection.model_ids@.len() && (#[trigger] selection.model_ids@[j])@ == model@
}

/// Whether a model of a provider is held, of the provider or by name.
pub open spec fn holds<V>(selection: Selection, provider: String, entry: (String, V)) -> bool {
    holds_pair(selection, (provider, entry.0)) || holds_name(selection, entry.0)
}

/// Whether some model of a provider is held.
pub open spec fn holds_any<V>(selection: Selection, provider: ProviderModels<V>) -> bool {
    exists|j: int|
        0 <= j < provider.models@.len() && holds(
            selection,
            provider.id,
            #[trigger] provider.models@[j],
        )
}

proof fn lemma_kept_models<V>(selection: Selection, provider: ProviderModels<V>)
    ensures
        table::is_rest(
            provider.models@,
            kept_models(selection, provider.id@, provider.models@),
            |entry: (String, V)| !holds(selection, provider.id, entry),
        ),
        holds_any(selection, provider) == (kept_models(
            selection,
            provider.id@,
            provider.models@,
        ).len() > 0),
{
    let models = provider.models@;
    let own = |entry: (String, V)| holds(selection, provider.id, entry);
    let gone = |entry: (String, V)| !holds(selection, provider.id, entry);
    let chosen = |entry: (String, V)| keeps(selection, provider.id@, entry.0@);
    assert(forall|entry: (String, V)| #[trigger] chosen(entry) == own(entry));
    table::lemma_chosen_rest(models, chosen, gone);
    assert(kept_models(selection, provider.id@, models) == models.filter(chosen));
    if holds_any(selection, provider) {
        let j = choose|j: int|
            0 <= j < models.len() && holds(selection, provider.id, #[trigger] models[j]);
        assert(chosen(models[j]));
        table::lemma_chosen_place(models, chosen, j);
    }
    if models.filter(chosen).len() > 0 {
        models.lemma_filter_contains_rev(chosen, models.filter(chosen)[0]);
        assert(models.filter(chosen).contains(models.filter(chosen)[0]));
        let j = choose|j: int| 0 <= j < models.len() && models[j] == models.filter(chosen)[0];
        assert(chosen(models[j]));
        assert(holds(selection, provider.id, models[j]));
    }
}

/// Of the catalogue those providers stay of which a model is asked for, in
/// their order, and of each the models that are asked for, in their order.
pub proof fn what_is_asked_for_stays<V>(
    selection: Selection,
    before: Seq<ProviderModels<V>>,
    after: Seq<ProviderModels<V>>,
)
    requires
        is_retained(selection, before, after),
    ensures
        ({
            let some = |provider: ProviderModels<V>| holds_any(selection, provider);
            &&& after.len() == table::count(before, some, before.len() as int)
            &&& forall|i: int|
                0 <= i < before.len() && holds_any(selection, #[trigger] before[i]) ==> {
                    let there = after[table::count(before, some, i)];
                    &&& there.id == before[i].id
                    &&& table::is_rest(
                        before[i].models@,
                        there.models@,
                        |entry: (String, V)| !holds(selection, before[i].id, entry),
                    )
                }
        }),
    decreases before.len(),
{
    let some = |provider: ProviderModels<V>| holds_any(selection, provider);
    let n = before.len() as int;
    if n > 0 {
        let less = before.drop_last();
        let last = before.last();
        lemma_kept_models(selection, last);
        let rest = if holds_any(selection, last) {
            after.drop_last()
        } else {
            after
        };
        what_is_asked_for_stays(selection, less, rest);
        assert forall|k: int| 0 <= k < n implies table::count(less, some, k) == table::count(
            before,
            some,
            k,
        ) by {
            lemma_count_prefix(before, some, k);
        }
        lemma_count_prefix(before, some, n - 1);
        assert forall|i: int| 0 <= i < n && holds_any(selection, #[trigger] before[i]) implies {
            let there = after[table::count(before, some, i)];
            &&& there.id == before[i].id
            &&& table::is_rest(
                before[i].models@,
                there.models@,
                |entry: (String, V)| !holds(selection, before[i].id, entry),
            )
        } by {
            if i < n - 1 {
                assert(less[i] == before[i]);
                lemma_count_prefix(before, some, i);
                table::lemma_chosen_place(less, some, i);
                table::lemma_count(less, some, n - 1);
                let there = rest[table::count(less, some, i)];
                assert(after[table::count(before, some, i)] == there);
            }
        }
    }
}

proof fn lemma_count_prefix<T>(rows: Seq<T>, keep: spec_fn(T) -> bool, n: int)
    requires
        0 <= n < rows.len(),
    ensures
        table::count(rows.drop_last(), keep, n) == table::count(rows, keep, n),
    decreases n,
{
    if n > 0 {
        lemma_count_prefix(rows, keep, n - 1);
    }
}

/// What either of two selections holds is held once they are merged, and
/// nothing else.
pub proof fn merging_holds_both(
    before: Selection,
    other: Selection,
    after: Selection,
    pair: (String, String),
    model: String,
)
    requires
        is_merged(before, other, after),
    ensures
        holds_pair(after, pair) == (holds_pair(before, pair) || holds_pair(other, pair)),
        holds_name(after, model) == (holds_name(before, model) || holds_name(other, model)),
{
    assert(after.wants(pair.0@, pair.1@) == (before.wants(pair.0@, pair.1@) || other.wants(
        pair.0@,
        pair.1@,
    )));
    assert(after.wants_id(model@) == (before.wants_id(model@) || other.wants_id(model@)));
}

/// What a configuration names is held once it was noted, and so is what was
/// held before, and nothing else. The catalogue itself stays. It has to be read
/// again where there is none, and where it was cut to less than is held now.
pub proof fn what_is_named_is_noted<V>(
    before: Catalogue<V>,
    config: &AppConfig,
    after: Catalogue<V>,
    reload: bool,
    own: Selection,
    pair: (String, String),
    model: String,
    have: bool,
)
    requires
        is_noted(before, *config, after, reload),
        call_ensures(Selection::of, (config,), own),
        before.pruned_to matches Some(cut) ==> call_ensures(
            Selection::covers,
            (&cut, &after.wanted),
            have,
        ),
    ensures
        holds_pair(after.wanted, pair) == (holds_pair(before.wanted, pair) || holds_pair(own, pair)),
        holds_name(after.wanted, model) == (holds_name(before.wanted, model) || holds_name(
            own,
            model,
        )),
        after.loaded == before.loaded && after.pruned_to == before.pruned_to,
        reload == (before.loaded is None || before.pruned_to is Some && !have),
{
    assert(own.is_of(*config));
    assert(own.wants(pair.0@, pair.1@) == holds_pair(own, pair));
    assert(own.wants_id(model@) == holds_name(own, model));
    assert(after.wanted.wants(pair.0@, pair.1@) == holds_pair(after.wanted, pair));
    assert(after.wanted.wants_id(model@) == holds_name(after.wanted, model));
    assert(before.wanted.wants(pair.0@, pair.1@) == holds_pair(before.wanted, pair));
    assert(before.wanted.wants_id(model@) == holds_name(before.wanted, model));
}

/// A catalogue that was cut for a configuration need not be read again for it,
/// and it was cut to all that is held.
pub proof fn what_was_cut_suffices<V>(
    before: Catalogue<V>,
    fresh: Seq<ProviderModels<V>>,
    config: AppConfig,
    after: Catalogue<V>,
    again: Catalogue<V>,
    reload: bool,
)
    requires
        is_cut(before, fresh, config, after),
        is_noted(after, config, again, reload),
    ensures
        !reload,
        after.loaded matches Some(loaded) && is_retained(after.wanted, fresh, loaded@),
        after.pruned_to matches Some(cut) && cut.by_provider@ == after.wanted.by_provider@
            && cut.model_ids@ == after.wanted.model_ids@,
{
    asking_again_asks_for_no_more(before.wanted, config, after.wanted, again.wanted);
    let cut = after.pruned_to->Some_0;
    assert forall|p: Seq<char>, m: Seq<char>| #[trigger]
        again.wanted.wants(p, m) implies cut.wants(p, m) by {
        assert(after.wanted.wants(p, m));
    }
    assert forall|m: Seq<char>| #[trigger] again.wanted.wants_id(m) implies cut.wants_id(m) by {
        assert(after.wanted.wants_id(m));
    }
}

} // verus!
