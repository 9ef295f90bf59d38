//! The words command's inputs and its decisions: which source drives the
//! lookup, how the metaboard endpoint override applies, and how fetched word
//! lists flatten for output.

use vstd::prelude::*;
use crate::config::Config;
use crate::dotrain_order::DotrainOrder;
use crate::meta::{AuthoringMetaItem, AuthoringMetaV2};

verus! {

/// The input documents: a strategy file, a settings file, or both.
#[derive(Debug, Clone)]
pub struct Input {
    /// Path of the strategy document.
    pub dotrain_file: Option<String>,
    /// Path of the settings document.
    pub settings_file: Option<String>,
}

/// What to resolve words for: a deployer by key, or a scenario by key.
#[derive(Debug, Clone)]
pub struct Source {
    pub deployer: Option<String>,
    pub scenario: Option<String>,
}

/// The words command: resolve the vocabulary contracts expose for a
/// deployer or a scenario.
#[derive(Debug)]
pub struct Words {
    pub input: Input,
    pub source: Source,
    /// Only the scenario's pragma contracts.
    pub pragma_only: bool,
    /// Only the scenario's deployer contract.
    pub deployer_only: bool,
    /// Overrides the configured metaboard endpoint.
    pub metaboard_subgraph: Option<String>,
    /// Path to write the result into.
    pub output: Option<String>,
    /// Whether to print the result.
    pub stdout: bool,
}

impl Words {
    /// The command's argument rules: at least one input document; exactly
    /// one source; the per-scenario flags demand a scenario, at most one of
    /// them, and a scenario demands the strategy document.
    pub open spec fn spec_valid(self) -> bool {
        &&& self.input.dotrain_file is Some || self.input.settings_file is Some
        &&& (self.source.deployer is Some) != (self.source.scenario is Some)
        &&& self.pragma_only ==> self.source.scenario is Some
        &&& self.deployer_only ==> self.source.scenario is Some
        &&& !(self.pragma_only && self.deployer_only)
        &&& self.pragma_only ==> !(self.source.deployer is Some)
        &&& self.deployer_only ==> !(self.source.deployer is Some)
        &&& self.source.scenario is Some ==> self.input.dotrain_file is Some
    }

    /// Checks the argument rules.
    pub fn validate(&self) -> (r: bool)
        ensures
            r == self.spec_valid(),
    {
        let input_ok = self.input.dotrain_file.is_some() || self.input.settings_file.is_some();
        let source_ok = self.source.deployer.is_some() != self.source.scenario.is_some();
        let pragma_ok = !self.pragma_only || (self.source.scenario.is_some()
            && !self.source.deployer.is_some());
        let deployer_ok = !self.deployer_only || (self.source.scenario.is_some()
            && !self.source.deployer.is_some());
        let flags_ok = !(self.pragma_only && self.deployer_only);
        let scenario_ok = !self.source.scenario.is_some() || self.input.dotrain_file.is_some();
        input_ok && source_ok && pragma_ok && deployer_ok && flags_ok && scenario_ok
    }

    /// The metaboard endpoint for a deployer lookup: the command's override
    /// wins; otherwise the endpoint configured for the deployer's network.
    pub fn metaboard_for_deployer(&self, config: &Config, deployer: &String) -> (r: Result<
        String,
        WordsError,
    >)
        requires
            config.deployers.wf(),
            config.metaboards.wf(),
        ensures
            match r {
                Ok(u) => config.deployers.spec_get(deployer@) matches Some(d) && (match self
                    .metaboard_subgraph {
                    Some(o) => u@ == o@,
                    None => config.metaboards.spec_get(d.network.name@) matches Some(c) && u@
                        == c@,
                }),
                Err(WordsError::UndefinedDeployer) => config.deployers.spec_get(deployer@)
                    is None,
                Err(WordsError::UndefinedMetaboard) => config.deployers.spec_get(deployer@)
                    matches Some(d) && self.metaboard_subgraph is None
                    && config.metaboards.spec_get(d.network.name@) is None,
                Err(_) => false,
            },
    {
        let d = match config.deployers.get(deployer) {
            Some(d) => d,
            None => {
                return Err(WordsError::UndefinedDeployer);
            },
        };
        match &self.metaboard_subgraph {
            Some(o) => Ok(o.clone()),
            None => match config.metaboards.get(&d.network.name) {
                Some(u) => Ok(u.clone()),
                None => Err(WordsError::UndefinedMetaboard),
            },
        }
    }

    /// Applies the command's metaboard override to a scenario's network,
    /// where the command carries one.
    pub fn apply_metaboard_override(&self, order: &mut DotrainOrder, scenario: &String) -> (r:
        Result<(), WordsError>)
        requires
            old(order).wf(),
        ensures
            final(order).wf(),
            match r {
                Ok(_) => old(order).config.scenarios.spec_get(scenario@) matches Some(sc)
                    && (match self.metaboard_subgraph {
                    Some(u) => final(order).config.metaboards.spec_get(sc.deployer.network.name@)
                        == Some(u) && (forall|q: Seq<char>|
                        q != sc.deployer.network.name@ ==> final(order).config.metaboards.spec_get(
                            q,
                        ) == old(order).config.metaboards.spec_get(q)),
                    None => *final(order) == *old(order),
                }),
                Err(WordsError::UndefinedScenario) => old(order).config.scenarios.spec_get(
                    scenario@,
                ) is None && *final(order) == *old(order),
                Err(_) => false,
            },
    {
        let network_name = match order.config.scenarios.get(scenario) {
            Some(sc) => sc.deployer.network.name.clone(),
            None => {
                return Err(WordsError::UndefinedScenario);
            },
        };
        match &self.metaboard_subgraph {
            Some(u) => {
                order.set_metaboard(network_name, u.clone());
                Ok(())
            },
            None => Ok(()),
        }
    }
}

/// Why the words command rejected its inputs.
#[derive(Clone, Copy, Debug, PartialEq, Eq, Structural)]
pub enum WordsError {
    /// The named deployer is not configured.
    UndefinedDeployer,
    /// No metaboard endpoint is configured or given for the network.
    UndefinedMetaboard,
    /// The named scenario is not configured.
    UndefinedScenario,
}

/// The word lists of the fetched documents, joined in order.
pub open spec fn flattened_words(metas: Seq<AuthoringMetaV2>) -> Seq<AuthoringMetaItem>
    decreases metas.len(),
{
    if metas.len() == 0 {
        Seq::<AuthoringMetaItem>::empty()
    } else {
        flattened_words(metas.drop_last()) + metas.last().words@
    }
}

/// Joins the word lists of fetched documents into one, in order.
#[verifier::loop_isolation(false)]
pub fn flat_words(metas: Vec<AuthoringMetaV2>) -> (r: Vec<AuthoringMetaItem>)
    ensures
        r@ == flattened_words(metas@),
{
    let ghost metas0 = metas@;
    let mut rest = metas;
    let mut out: Vec<AuthoringMetaItem> = Vec::new();
    let n = rest.len();
    let mut i: usize = 0;
    while i < n
        invariant
            i <= n,
            n == metas0.len(),
            rest@ =~= metas0.subrange(i as int, n as int),
            out@ == flattened_words(metas0.subrange(0, i as int)),
        decreases n - i,
    {
        let m = rest.remove(0);
        proof {
            assert(m == metas0[i as int]);
            assert(rest@ =~= metas0.subrange(i + 1, n as int));
        }
        let mut words = m.words;
        let ghost before = out@;
        let wn = words.len();
        let mut j: usize = 0;
        while j < wn
            invariant
                j <= wn,
                wn == metas0[i as int].words@.len(),
                words@ =~= metas0[i as int].words@.subrange(j as int, wn as int),
                out@ == before + metas0[i as int].words@.subrange(0, j as int),
            decreases wn - j,
        {
            let w = words.remove(0);
            proof {
                assert(w == metas0[i as int].words@[j as int]);
                assert(words@ =~= metas0[i as int].words@.subrange(j + 1, wn as int));
            }
            out.push(w);
            proof {
                assert(out@ =~= before + metas0[i as int].words@.subrange(0, j + 1));
            }
            j += 1;
        }
        proof {
            let pre = metas0.subrange(0, i as int);
            let cur = metas0.subrange(0, i + 1);
            assert(cur.drop_last() =~= pre);
            assert(metas0[i as int].words@.subrange(0, wn as int) =~= metas0[i as int].words@);
            assert(out@ =~= flattened_words(cur));
        }
        i += 1;
    }
    proof {
        assert(metas0.subrange(0, n as int) =~= metas0);
    }
    out
}

} // verus!
