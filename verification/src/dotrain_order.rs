//! The configuration/composition facade: owns the parsed configuration and
//! the strategy document, composes per-scenario script text through the
//! external composer, resolves per-scenario metadata, and checks the
//! declared build version.

use vstd::prelude::*;
use vstd::string::{StrSliceExecFns, StringExecFns, StringExecFnsIsAscii};
use crate::address::Address;
use crate::config::{resolves_to, Config, ConfigSource, ParseConfigError};
use crate::meta::{
    decode_authoring_meta, decode_pragma_addresses, address_views, meta_ascii, meta_renders,
    parse_meta_payload, parse_pragma_addresses, AuthoringMetaV2, MetaDecodeError,
};

verus! {

/// Whether every (name, value) pair holds only ASCII characters.
pub open spec fn ascii_pairs(ps: Seq<(Seq<char>, Seq<char>)>) -> bool {
    forall|i: int|
        0 <= i < ps.len() ==> vstd::utf8::is_ascii_chars((#[trigger] ps[i]).0)
            && vstd::utf8::is_ascii_chars(ps[i].1)
}

/// What composing the strategy document yields for given entrypoints and
/// rebinds: the rainlang text, or the composer's rendered error.
pub uninterp spec fn composed_rainlang(
    source: Seq<char>,
    entrypoints: Seq<Seq<char>>,
    rebinds: Seq<(Seq<char>, Seq<char>)>,
) -> Result<Seq<char>, Seq<char>>;

/// Relies on dotrain's RainDocument::compose_text with remote metadata
/// search disabled: on ASCII input — where every character is one byte, so
/// dotrain's character-position slicing stays on byte boundaries — the call
/// returns, and the composed text depends on the document text, the
/// entrypoints and the rebinds alone.
#[verifier::external_body]
fn compose_document(
    text: &String,
    entrypoints: &Vec<String>,
    rebinds: &Vec<(String, String)>,
) -> (r: Result<String, String>)
    requires
        text.is_ascii(),
        forall|i: int| 0 <= i < entrypoints@.len() ==> (#[trigger] entrypoints@[i]).is_ascii(),
        forall|i: int|
            0 <= i < rebinds@.len() ==> (#[trigger] rebinds@[i]).0.is_ascii()
                && rebinds@[i].1.is_ascii(),
    ensures
        match r {
            Ok(t) => composed_rainlang(
                text@,
                entrypoints@.map_values(|e: String| e@),
                rebinds@.map_values(|p: (String, String)| (p.0@, p.1@)),
            ) == Ok::<Seq<char>, Seq<char>>(t@),
            Err(e) => composed_rainlang(
                text@,
                entrypoints@.map_values(|e: String| e@),
                rebinds@.map_values(|p: (String, String)| (p.0@, p.1@)),
            ) == Err::<Seq<char>, Seq<char>>(e@),
        },
{
    let eps: Vec<&str> = entrypoints.iter().map(|e| e.as_str()).collect();
    let rbs: Vec<dotrain::Rebind> = rebinds.iter().map(
        |p| dotrain::Rebind(p.0.clone(), p.1.clone()),
    ).collect();
    match dotrain::RainDocument::compose_text(text.as_str(), &eps, None, Some(rbs)) {
        Ok(t) => Ok(t),
        Err(e) => Err(e.to_string()),
    }
}

/// The entrypoints evaluated for an order: its calculation and its
/// input/output handler.
pub open spec fn order_entrypoints() -> Seq<Seq<char>> {
    seq!["calculate-io"@, "handle-io"@]
}

/// The entrypoint evaluated after an order is added.
pub open spec fn post_task_entrypoints() -> Seq<Seq<char>> {
    seq!["handle-add-order"@]
}

/// The order-evaluation entrypoint whitelist.
pub fn orderbook_order_entrypoints() -> (r: Vec<String>)
    ensures
        r@.map_values(|e: String| e@) == order_entrypoints(),
        forall|i: int| 0 <= i < r@.len() ==> (#[trigger] r@[i]).is_ascii(),
{
    let mut v: Vec<String> = Vec::new();
    v.push(String::from_str("calculate-io"));
    v.push(String::from_str("handle-io"));
    proof {
        assert(v@.map_values(|e: String| e@) =~= order_entrypoints());
        reveal_strlit("calculate-io");
        reveal_strlit("handle-io");
        assert(v@[0].is_ascii());
        assert(v@[1].is_ascii());
    }
    v
}

/// The post-add-order entrypoint whitelist.
pub fn orderbook_addorder_post_task_entrypoints() -> (r: Vec<String>)
    ensures
        r@.map_values(|e: String| e@) == post_task_entrypoints(),
        forall|i: int| 0 <= i < r@.len() ==> (#[trigger] r@[i]).is_ascii(),
{
    let mut v: Vec<String> = Vec::new();
    v.push(String::from_str("handle-add-order"));
    proof {
        assert(v@.map_values(|e: String| e@) =~= post_task_entrypoints());
        reveal_strlit("handle-add-order");
        assert(v@[0].is_ascii());
    }
    v
}

/// Whether the front-matter separator stands at position `i` of a
/// document's text.
pub open spec fn separator_at(s: Seq<char>, i: int) -> bool {
    &&& 0 <= i
    &&& i + 3 <= s.len()
    &&& s[i] == '-'
    &&& s[i + 1] == '-'
    &&& s[i + 2] == '-'
}

/// The document's embedded configuration text: everything before the first
/// front-matter separator, where the document holds one.
#[verifier::loop_isolation(false)]
pub fn get_front_matter(text: &str) -> (r: Option<String>)
    ensures
        match r {
            Some(fm) => {
                &&& separator_at(text@, fm@.len() as int)
                &&& forall|k: int| 0 <= k < fm@.len() ==> !separator_at(text@, k)
                &&& fm@ == text@.subrange(0, fm@.len() as int)
            },
            None => forall|k: int| !separator_at(text@, k),
        },
{
    let n = text.unicode_len();
    if n < 3 {
        return None;
    }
    let mut i: usize = 0;
    while i <= n - 3
        invariant
            3 <= n == text@.len(),
            i <= n - 2,
            forall|k: int| 0 <= k < i ==> !separator_at(text@, k),
        decreases n - i,
    {
        if text.get_char(i) == '-' && text.get_char(i + 1) == '-' && text.get_char(i + 2) == '-' {
            let fm = String::from_str(text.substring_char(0, i));
            proof {
                assert(fm@.len() == i as int);
            }
            return Some(fm);
        }
        i += 1;
    }
    None
}

/// Why a facade operation failed.
#[derive(Debug)]
pub enum DotrainOrderError {
    /// No scenario of this name is configured.
    ScenarioNotFound(String),
    /// No metaboard endpoint is configured for this network name.
    MetaboardNotFound(String),
    /// The composer rejected the document; its message, verbatim.
    ComposeError(String),
    /// The document or a binding holds a character outside ASCII, which the
    /// composer does not accept.
    NonAsciiContent,
    /// The configuration could not be resolved.
    ParseConfigSourceError(ParseConfigError),
    /// The parser contract's pragma response was not a strict address array.
    PragmaDecodeFailed,
    /// An authoring-metadata payload was rejected.
    AuthoringMetaError(MetaDecodeError),
    /// The configuration declares another version than the build carries:
    /// the build's tag, then the declared one.
    RaindexVersionMismatch(String, String),
    /// The configuration declares no version tag; the build's tag.
    MissingRaindexVersion(String),
}

/// The words resolved for one contract, or why they could not be.
pub enum WordsResult {
    Success(AuthoringMetaV2),
    Error(String),
}

impl From<Result<AuthoringMetaV2, String>> for WordsResult {
    /// A fetched metadata document becomes `Success`; a failure message
    /// becomes `Error` data, never control flow.
    fn from(result: Result<AuthoringMetaV2, String>) -> (r: Self) {
        match result {
            Ok(meta) => WordsResult::Success(meta),
            Err(err) => WordsResult::Error(err),
        }
    }
}

impl vstd::std_specs::convert::FromSpecImpl<Result<AuthoringMetaV2, String>> for WordsResult {
    open spec fn obeys_from_spec() -> bool {
        true
    }

    open spec fn from_spec(t: Result<AuthoringMetaV2, String>) -> Self {
        match t {
            Ok(meta) => WordsResult::Success(meta),
            Err(err) => WordsResult::Error(err),
        }
    }
}

/// The words resolved for one address.
pub struct ContractWords {
    pub address: Address,
    pub words: WordsResult,
}

/// The words resolved for one scenario: its deployer's, then one entry per
/// discovered pragma address, in discovery order.
pub struct ScenarioWords {
    pub scenario: String,
    pub pragma_words: Vec<ContractWords>,
    pub deployer_words: ContractWords,
}

/// A per-contract outcome carries the fetched document, or the failure
/// message as data.
pub open spec fn words_from_result(r: Result<AuthoringMetaV2, String>, w: WordsResult) -> bool {
    match r {
        Ok(m) => w == WordsResult::Success(m),
        Err(e) => w matches WordsResult::Error(s) && s@ == e@,
    }
}

/// A zipped outcome list pairs each address, in order, with the outcome of
/// its own fetch and no other's.
pub open spec fn zipped_contract_words(
    addrs: Seq<Address>,
    results: Seq<Result<AuthoringMetaV2, String>>,
    v: Seq<ContractWords>,
) -> bool {
    &&& v.len() == addrs.len()
    &&& results.len() == addrs.len()
    &&& forall|i: int|
        0 <= i < v.len() ==> (#[trigger] v[i]).address@ == addrs[i]@ && words_from_result(
            results[i],
            v[i].words,
        )
}

/// Law: a metadata fetch failure for exactly one of many addresses yields
/// exactly one `Error` entry, at that address's own position; every other
/// address keeps its `Success` words, none degraded or omitted.
pub proof fn lemma_single_failure_isolated(
    addrs: Seq<Address>,
    results: Seq<Result<AuthoringMetaV2, String>>,
    v: Seq<ContractWords>,
    e: int,
)
    requires
        zipped_contract_words(addrs, results, v),
        0 <= e < results.len(),
        results[e] is Err,
        forall|j: int| 0 <= j < results.len() && j != e ==> results[j] is Ok,
    ensures
        v[e].words is Error,
        forall|j: int| 0 <= j < v.len() && j != e ==> (#[trigger] v[j]).words is Success,
{
    assert(v[e].address@ == addrs[e]@);
}

/// One scenario's assembled words: the scenario's own name, its deployer's
/// fetch outcome in the deployer slot, and one pragma entry per address, in
/// discovery order.
pub open spec fn scenario_words_ok(
    c: Config,
    name: Seq<char>,
    addrs: Seq<Address>,
    results: Seq<Result<AuthoringMetaV2, String>>,
    sw: ScenarioWords,
) -> bool {
    &&& sw.scenario@ == name
    &&& c.scenarios.spec_get(name) matches Some(sc) && sw.deployer_words.address@
        == sc.deployer.address@
    &&& results.len() == addrs.len() + 1
    &&& words_from_result(results[0], sw.deployer_words.words)
    &&& zipped_contract_words(addrs, results.subrange(1, results.len() as int), sw.pragma_words@)
}

/// The facade: the parsed configuration, the strategy document text, and
/// the source the configuration was resolved from.
pub struct DotrainOrder {
    pub config: Config,
    pub dotrain: String,
    pub config_source: ConfigSource,
}

/// The deployer record the merge of a base source and an override serves
/// for a name: the override's wins.
pub open spec fn merged_deployer(
    base: ConfigSource,
    over: ConfigSource,
    q: Seq<char>,
) -> Option<crate::config::DeployerCfg> {
    match over.deployers.spec_get(q) {
        Some(v) => Some(v),
        None => base.deployers.spec_get(q),
    }
}

/// The scenario record the merge serves for a name: the override's wins.
pub open spec fn merged_scenario(
    base: ConfigSource,
    over: ConfigSource,
    q: Seq<char>,
) -> Option<crate::config::ScenarioCfg> {
    match over.scenarios.spec_get(q) {
        Some(v) => Some(v),
        None => base.scenarios.spec_get(q),
    }
}

/// Whether the merge of a base source and an override resolves: every
/// merged deployer's network name and every merged scenario's deployer
/// name is served by the merge.
pub open spec fn merged_resolvable(base: ConfigSource, over: ConfigSource) -> bool {
    &&& forall|q: Seq<char>|
        #[trigger] merged_deployer(base, over, q) matches Some(d) ==> (match over.networks.spec_get(
            crate::config::deployer_network_key(d, q),
        ) {
            Some(_) => true,
            None => base.networks.spec_get(crate::config::deployer_network_key(d, q)) is Some,
        })
    &&& forall|q: Seq<char>|
        #[trigger] merged_scenario(base, over, q) matches Some(s) ==> merged_deployer(
            base,
            over,
            crate::config::scenario_deployer_key(s, q),
        ) is Some
}

/// The override of a base source by a settings document: the settings'
/// values win on key collision, map by map, and its version tag wins where
/// it has one.
pub open spec fn source_overridden(
    base: ConfigSource,
    over: ConfigSource,
    out: ConfigSource,
) -> bool {
    &&& forall|q: Seq<char>|
        out.networks.spec_get(q) == (match over.networks.spec_get(q) {
            Some(v) => Some(v),
            None => base.networks.spec_get(q),
        })
    &&& forall|q: Seq<char>|
        out.deployers.spec_get(q) == (match over.deployers.spec_get(q) {
            Some(v) => Some(v),
            None => base.deployers.spec_get(q),
        })
    &&& forall|q: Seq<char>|
        out.scenarios.spec_get(q) == (match over.scenarios.spec_get(q) {
            Some(v) => Some(v),
            None => base.scenarios.spec_get(q),
        })
    &&& forall|q: Seq<char>|
        out.metaboards.spec_get(q) == (match over.metaboards.spec_get(q) {
            Some(v) => Some(v),
            None => base.metaboards.spec_get(q),
        })
    &&& out.raindex_version == (match over.raindex_version {
        Some(v) => Some(v),
        None => base.raindex_version,
    })
}

impl DotrainOrder {
    /// The facade is well formed: its source and resolved maps are.
    pub open spec fn wf(self) -> bool {
        &&& self.config_source.wf()
        &&& self.config.networks.wf()
        &&& self.config.deployers.wf()
        &&& self.config.scenarios.wf()
        &&& self.config.metaboards.wf()
        &&& forall|q: Seq<char>|
            #[trigger] self.config.scenarios.spec_get(q) matches Some(s) ==> s.bindings.wf()
    }

    /// Builds the facade from the strategy document and its embedded
    /// configuration, merged with an optional override document whose
    /// values win, then resolved. Resolution succeeds exactly where every
    /// deployer's network name and every scenario's deployer name is held.
    pub fn new(dotrain: String, frontmatter: ConfigSource, settings: Option<ConfigSource>) -> (r:
        Result<DotrainOrder, DotrainOrderError>)
        requires
            frontmatter.wf(),
            settings matches Some(s) ==> s.wf(),
        ensures
            match r {
                Ok(o) => {
                    &&& o.wf()
                    &&& o.dotrain@ == dotrain@
                    &&& (match settings {
                        Some(s) => source_overridden(frontmatter, s, o.config_source),
                        None => o.config_source == frontmatter,
                    })
                    &&& resolves_to(o.config_source, o.config)
                },
                Err(DotrainOrderError::ParseConfigSourceError(_)) => !(match settings {
                    Some(s) => merged_resolvable(frontmatter, s),
                    None => frontmatter.deployers_resolvable()
                        && frontmatter.scenarios_resolvable(),
                }),
                Err(_) => false,
            },
    {
        let ghost settings0 = settings;
        let mut source = frontmatter;
        match settings {
            Some(s) => {
                source.merge(s);
            },
            None => {},
        }
        proof {
            match settings0 {
                Some(s) => {
                    assert(source.deployers_resolvable() && source.scenarios_resolvable()
                        ==> merged_resolvable(frontmatter, s)) by {
                        if source.deployers_resolvable() && source.scenarios_resolvable() {
                            assert forall|q: Seq<char>| #[trigger] merged_deployer(
                                frontmatter,
                                s,
                                q,
                            ) is Some implies (match s.networks.spec_get(
                                crate::config::deployer_network_key(
                                    merged_deployer(frontmatter, s, q)->Some_0,
                                    q,
                                ),
                            ) {
                                Some(_) => true,
                                None => frontmatter.networks.spec_get(
                                    crate::config::deployer_network_key(
                                        merged_deployer(frontmatter, s, q)->Some_0,
                                        q,
                                    ),
                                ) is Some,
                            }) by {
                                assert(source.deployers.spec_get(q) == merged_deployer(
                                    frontmatter,
                                    s,
                                    q,
                                ));
                            }
                            assert forall|q: Seq<char>| #[trigger] merged_scenario(
                                frontmatter,
                                s,
                                q,
                            ) is Some implies merged_deployer(
                                frontmatter,
                                s,
                                crate::config::scenario_deployer_key(
                                    merged_scenario(frontmatter, s, q)->Some_0,
                                    q,
                                ),
                            ) is Some by {
                                assert(source.scenarios.spec_get(q) == merged_scenario(
                                    frontmatter,
                                    s,
                                    q,
                                ));
                                let dk = crate::config::scenario_deployer_key(
                                    source.scenarios.spec_get(q)->Some_0,
                                    q,
                                );
                                assert(source.deployers.spec_get(dk) == merged_deployer(
                                    frontmatter,
                                    s,
                                    dk,
                                ));
                            }
                        }
                    }
                    assert(merged_resolvable(frontmatter, s) ==> source.deployers_resolvable()
                        && source.scenarios_resolvable()) by {
                        if merged_resolvable(frontmatter, s) {
                            assert forall|q: Seq<char>| #[trigger] source.deployers.spec_get(q)
                                is Some implies source.networks.spec_contains(
                                crate::config::deployer_network_key(
                                    source.deployers.spec_get(q)->Some_0,
                                    q,
                                ),
                            ) by {
                                assert(merged_deployer(frontmatter, s, q) == source.deployers
                                    .spec_get(q));
                            }
                            assert forall|q: Seq<char>| #[trigger] source.scenarios.spec_get(q)
                                is Some implies source.deployers.spec_contains(
                                crate::config::scenario_deployer_key(
                                    source.scenarios.spec_get(q)->Some_0,
                                    q,
                                ),
                            ) by {
                                assert(merged_scenario(frontmatter, s, q) == source.scenarios
                                    .spec_get(q));
                                let dk = crate::config::scenario_deployer_key(
                                    source.scenarios.spec_get(q)->Some_0,
                                    q,
                                );
                                assert(merged_deployer(frontmatter, s, dk) == source.deployers
                                    .spec_get(dk));
                            }
                        }
                    }
                },
                None => {},
            }
        }
        match source.try_into_config() {
            Ok(config) => {
                let o = DotrainOrder { config, dotrain, config_source: source };
                proof {
                    assert forall|q: Seq<char>| #[trigger] o.config.scenarios.spec_get(q)
                        is Some implies (o.config.scenarios.spec_get(q)->Some_0).bindings.wf() by {
                        if o.config_source.scenarios.spec_get(q) is None {
                            assert(o.config.scenarios.spec_get(q) is None);
                        }
                    }
                }
                Ok(o)
            },
            Err(e) => Err(DotrainOrderError::ParseConfigSourceError(e)),
        }
    }

    /// The resolved configuration.
    pub fn config(&self) -> (r: &Config)
        ensures
            r == &self.config,
    {
        &self.config
    }

    /// The configuration source the facade was built from.
    pub fn config_source(&self) -> (r: &ConfigSource)
        ensures
            r == &self.config_source,
    {
        &self.config_source
    }

    /// The strategy document text.
    pub fn dotrain(&self) -> (r: &str)
        ensures
            r@ == self.dotrain@,
    {
        self.dotrain.as_str()
    }

    /// Maps a network name to a metaboard endpoint, overriding any held
    /// entry for that name.
    pub fn set_metaboard(&mut self, network: String, url: String)
        requires
            old(self).wf(),
        ensures
            final(self).wf(),
            final(self).config.metaboards.spec_get(network@) == Some(url),
            forall|q: Seq<char>|
                q != network@ ==> final(self).config.metaboards.spec_get(q) == old(
                    self,
                ).config.metaboards.spec_get(q),
            final(self).config.scenarios == old(self).config.scenarios,
            final(self).config.deployers == old(self).config.deployers,
            final(self).config.networks == old(self).config.networks,
            final(self).dotrain == old(self).dotrain,
    {
        self.config.metaboards.insert(network, url);
    }

    /// Composes the scenario's script for the order-evaluation entrypoints,
    /// binding the scenario's bindings. The document and the bindings must
    /// be ASCII text, which the composer owes a result for; anything beyond
    /// is refused before the composer sees it.
    pub fn compose_scenario_to_rainlang(&self, scenario: String) -> (r: Result<
        String,
        DotrainOrderError,
    >)
        requires
            self.wf(),
        ensures
            match r {
                Ok(t) => self.config.scenarios.spec_get(scenario@) matches Some(sc)
                    && (self.dotrain.is_ascii() && ascii_pairs(sc.bindings.entry_list())
                    && composed_rainlang(self.dotrain@, order_entrypoints(), sc.bindings.entry_list())
                    == Ok::<Seq<char>, Seq<char>>(t@)),
                Err(DotrainOrderError::ScenarioNotFound(n)) => self.config.scenarios.spec_get(
                    scenario@,
                ) is None && n@ == scenario@,
                Err(DotrainOrderError::NonAsciiContent) => self.config.scenarios.spec_get(scenario@)
                    matches Some(sc) && !(self.dotrain.is_ascii() && ascii_pairs(
                    sc.bindings.entry_list(),
                )),
                Err(DotrainOrderError::ComposeError(m)) => self.config.scenarios.spec_get(scenario@)
                    matches Some(sc) && (self.dotrain.is_ascii() && ascii_pairs(
                    sc.bindings.entry_list(),
                ) && composed_rainlang(
                    self.dotrain@,
                    order_entrypoints(),
                    sc.bindings.entry_list(),
                ) == Err::<Seq<char>, Seq<char>>(m@)),
                Err(_) => false,
            },
    {
        let sc = match self.config.scenarios.get(&scenario) {
            Some(sc) => sc,
            None => {
                return Err(DotrainOrderError::ScenarioNotFound(scenario));
            },
        };
        let rebinds = match self.ascii_rebinds(sc) {
            Some(rebinds) => rebinds,
            None => {
                return Err(DotrainOrderError::NonAsciiContent);
            },
        };
        let entrypoints = orderbook_order_entrypoints();
        match compose_document(&self.dotrain, &entrypoints, &rebinds) {
            Ok(t) => Ok(t),
            Err(m) => Err(DotrainOrderError::ComposeError(m)),
        }
    }

    /// The scenario's bindings as rebind pairs, where the document and
    /// every pair is ASCII; nothing otherwise.
    #[verifier::loop_isolation(false)]
    fn ascii_rebinds(&self, sc: &crate::config::Scenario) -> (r: Option<Vec<(String, String)>>)
        requires
            sc.bindings.wf(),
        ensures
            match r {
                Some(rebinds) => {
                    &&& self.dotrain.is_ascii()
                    &&& ascii_pairs(sc.bindings.entry_list())
                    &&& rebinds@.map_values(|p: (String, String)| (p.0@, p.1@))
                        == sc.bindings.entry_list()
                    &&& forall|i: int|
                        0 <= i < rebinds@.len() ==> (#[trigger] rebinds@[i]).0.is_ascii()
                            && rebinds@[i].1.is_ascii()
                },
                None => !(self.dotrain.is_ascii() && ascii_pairs(sc.bindings.entry_list())),
            },
    {
        if !self.dotrain.is_ascii() {
            return None;
        }
        let rebinds = sc.bindings.entries();
        let n = rebinds.len();
        let mut i: usize = 0;
        while i < n
            invariant
                i <= n,
                n == rebinds@.len(),
                forall|j: int|
                    0 <= j < i ==> (#[trigger] rebinds@[j]).0.is_ascii()
                        && rebinds@[j].1.is_ascii(),
        decreases n - i,
        {
            if !rebinds[i].0.is_ascii() || !rebinds[i].1.is_ascii() {
                proof {
                    assert(sc.bindings.entry_list()[i as int] == (rebinds@[i as int].0@,
                    rebinds@[i as int].1@));
                    assert(!ascii_pairs(sc.bindings.entry_list()));
                }
                return None;
            }
            i += 1;
        }
        proof {
            assert forall|k: int| 0 <= k < sc.bindings.entry_list().len() implies
                vstd::utf8::is_ascii_chars((#[trigger] sc.bindings.entry_list()[k]).0)
                && vstd::utf8::is_ascii_chars(sc.bindings.entry_list()[k].1) by {
                assert(sc.bindings.entry_list()[k] == (rebinds@[k].0@, rebinds@[k].1@));
            }
        }
        Some(rebinds)
    }

    /// Composes the scenario's script for the post-add-order entrypoint,
    /// binding the scenario's bindings, under the same ASCII rule as the
    /// order-evaluation composition.
    pub fn compose_scenario_to_post_task_rainlang(&self, scenario: String) -> (r: Result<
        String,
        DotrainOrderError,
    >)
        requires
            self.wf(),
        ensures
            match r {
                Ok(t) => self.config.scenarios.spec_get(scenario@) matches Some(sc)
                    && (self.dotrain.is_ascii() && ascii_pairs(sc.bindings.entry_list())
                    && composed_rainlang(
                    self.dotrain@,
                    post_task_entrypoints(),
                    sc.bindings.entry_list(),
                ) == Ok::<Seq<char>, Seq<char>>(t@)),
                Err(DotrainOrderError::ScenarioNotFound(n)) => self.config.scenarios.spec_get(
                    scenario@,
                ) is None && n@ == scenario@,
                Err(DotrainOrderError::NonAsciiContent) => self.config.scenarios.spec_get(scenario@)
                    matches Some(sc) && !(self.dotrain.is_ascii() && ascii_pairs(
                    sc.bindings.entry_list(),
                )),
                Err(DotrainOrderError::ComposeError(m)) => self.config.scenarios.spec_get(scenario@)
                    matches Some(sc) && (self.dotrain.is_ascii() && ascii_pairs(
                    sc.bindings.entry_list(),
                ) && composed_rainlang(
                    self.dotrain@,
                    post_task_entrypoints(),
                    sc.bindings.entry_list(),
                ) == Err::<Seq<char>, Seq<char>>(m@)),
                Err(_) => false,
            },
    {
        let sc = match self.config.scenarios.get(&scenario) {
            Some(sc) => sc,
            None => {
                return Err(DotrainOrderError::ScenarioNotFound(scenario));
            },
        };
        let rebinds = match self.ascii_rebinds(sc) {
            Some(rebinds) => rebinds,
            None => {
                return Err(DotrainOrderError::NonAsciiContent);
            },
        };
        let entrypoints = orderbook_addorder_post_task_entrypoints();
        match compose_document(&self.dotrain, &entrypoints, &rebinds) {
            Ok(t) => Ok(t),
            Err(m) => Err(DotrainOrderError::ComposeError(m)),
        }
    }

    /// Extracts the pragma addresses the parser contract returned for a
    /// scenario's composed script, in discovery order.
    pub fn get_pragmas_for_scenario(&self, scenario: &String, parser_response: &Vec<u8>) -> (r:
        Result<Vec<Address>, DotrainOrderError>)
        requires
            self.wf(),
        ensures
            match r {
                Ok(v) => self.config.scenarios.spec_contains(scenario@)
                    && parse_pragma_addresses(parser_response@) == Some(address_views(v@)),
                Err(DotrainOrderError::ScenarioNotFound(n)) => self.config.scenarios.spec_get(
                    scenario@,
                ) is None && n@ == scenario@,
                Err(DotrainOrderError::PragmaDecodeFailed) => self.config.scenarios.spec_contains(
                    scenario@,
                ) && parse_pragma_addresses(parser_response@) is None,
                Err(_) => false,
            },
    {
        if self.config.scenarios.get(scenario).is_none() {
            return Err(DotrainOrderError::ScenarioNotFound(scenario.clone()));
        }
        match decode_pragma_addresses(parser_response) {
            Some(v) => Ok(v),
            None => Err(DotrainOrderError::PragmaDecodeFailed),
        }
    }

    /// Decodes the authoring-metadata document fetched for a contract of a
    /// scenario's network: the scenario must be held and its network must
    /// have a metaboard endpoint.
    pub fn get_contract_authoring_meta_v2_for_scenario(
        &self,
        scenario: &String,
        payload: &Vec<u8>,
    ) -> (r: Result<AuthoringMetaV2, DotrainOrderError>)
        requires
            self.wf(),
        ensures
            match r {
                Ok(m) => self.config.scenarios.spec_get(scenario@) matches Some(sc)
                    && self.config.metaboards.spec_contains(sc.deployer.network.name@)
                    && (parse_meta_payload(payload@) matches Some(items) && meta_ascii(items)
                    && meta_renders(items, m)),
                Err(DotrainOrderError::ScenarioNotFound(n)) => self.config.scenarios.spec_get(
                    scenario@,
                ) is None && n@ == scenario@,
                Err(DotrainOrderError::MetaboardNotFound(n)) => self.config.scenarios.spec_get(
                    scenario@,
                ) matches Some(sc) && self.config.metaboards.spec_get(sc.deployer.network.name@)
                    is None && n@ == sc.deployer.network.name@,
                Err(DotrainOrderError::AuthoringMetaError(e)) => self.config.scenarios.spec_get(
                    scenario@,
                ) matches Some(sc) && self.config.metaboards.spec_contains(
                    sc.deployer.network.name@,
                ) && (match e {
                    MetaDecodeError::MalformedPayload => parse_meta_payload(payload@) is None,
                    MetaDecodeError::NonAsciiText => parse_meta_payload(payload@) matches Some(
                        items,
                    ) && !meta_ascii(items),
                }),
                Err(_) => false,
            },
    {
        let sc = match self.config.scenarios.get(scenario) {
            Some(sc) => sc,
            None => {
                return Err(DotrainOrderError::ScenarioNotFound(scenario.clone()));
            },
        };
        if self.config.metaboards.get(&sc.deployer.network.name).is_none() {
            return Err(DotrainOrderError::MetaboardNotFound(sc.deployer.network.name.clone()));
        }
        match decode_authoring_meta(payload) {
            Ok(m) => Ok(m),
            Err(e) => Err(DotrainOrderError::AuthoringMetaError(e)),
        }
    }

    /// The metaboard endpoint for a scenario's network.
    pub fn metaboard_url_for_scenario(&self, scenario: &String) -> (r: Result<
        String,
        DotrainOrderError,
    >)
        requires
            self.wf(),
        ensures
            match r {
                Ok(u) => self.config.scenarios.spec_get(scenario@) matches Some(sc)
                    && self.config.metaboards.spec_get(sc.deployer.network.name@) matches Some(h)
                    && u@ == h@,
                Err(DotrainOrderError::ScenarioNotFound(n)) => self.config.scenarios.spec_get(
                    scenario@,
                ) is None && n@ == scenario@,
                Err(DotrainOrderError::MetaboardNotFound(n)) => self.config.scenarios.spec_get(
                    scenario@,
                ) matches Some(sc) && self.config.metaboards.spec_get(sc.deployer.network.name@)
                    is None && n@ == sc.deployer.network.name@,
                Err(_) => false,
            },
    {
        let sc = match self.config.scenarios.get(scenario) {
            Some(sc) => sc,
            None => {
                return Err(DotrainOrderError::ScenarioNotFound(scenario.clone()));
            },
        };
        match self.config.metaboards.get(&sc.deployer.network.name) {
            Some(u) => Ok(u.clone()),
            None => Err(DotrainOrderError::MetaboardNotFound(sc.deployer.network.name.clone())),
        }
    }

    /// Wraps one metadata fetch outcome for the scenario's deployer: a
    /// failure becomes `Error` data on the deployer's entry, never an error
    /// of the whole operation.
    pub fn get_deployer_words_for_scenario(
        &self,
        scenario: &String,
        result: Result<AuthoringMetaV2, String>,
    ) -> (r: Result<ContractWords, DotrainOrderError>)
        requires
            self.wf(),
        ensures
            match r {
                Ok(cw) => self.config.scenarios.spec_get(scenario@) matches Some(sc)
                    && cw.address@ == sc.deployer.address@ && words_from_result(result, cw.words),
                Err(DotrainOrderError::ScenarioNotFound(n)) => self.config.scenarios.spec_get(
                    scenario@,
                ) is None && n@ == scenario@,
                Err(_) => false,
            },
    {
        let sc = match self.config.scenarios.get(scenario) {
            Some(sc) => sc,
            None => {
                return Err(DotrainOrderError::ScenarioNotFound(scenario.clone()));
            },
        };
        Ok(ContractWords { address: sc.deployer.address.clone(), words: WordsResult::from(result) })
    }

    /// Zips the discovered pragma addresses with their own fetch outcomes,
    /// in discovery order: per-contract failures are data, and one entry is
    /// owed per address.
    #[verifier::loop_isolation(false)]
    pub fn get_pragma_words_for_scenario(
        &self,
        scenario: &String,
        pragma_addresses: Vec<Address>,
        results: Vec<Result<AuthoringMetaV2, String>>,
    ) -> (r: Result<Vec<ContractWords>, DotrainOrderError>)
        requires
            self.wf(),
            results@.len() == pragma_addresses@.len(),
        ensures
            match r {
                Ok(v) => self.config.scenarios.spec_contains(scenario@) && zipped_contract_words(
                    pragma_addresses@,
                    results@,
                    v@,
                ),
                Err(DotrainOrderError::ScenarioNotFound(n)) => self.config.scenarios.spec_get(
                    scenario@,
                ) is None && n@ == scenario@,
                Err(_) => false,
            },
    {
        if self.config.scenarios.get(scenario).is_none() {
            return Err(DotrainOrderError::ScenarioNotFound(scenario.clone()));
        }
        Ok(zip_contract_words(pragma_addresses, results))
    }

    /// Assembles a scenario's words: the deployer's own fetch outcome in
    /// the first slot, then one entry per pragma address, split back by
    /// position.
    pub fn get_all_words_for_scenario(
        &self,
        scenario: &String,
        pragma_addresses: Vec<Address>,
        results: Vec<Result<AuthoringMetaV2, String>>,
    ) -> (r: Result<ScenarioWords, DotrainOrderError>)
        requires
            self.wf(),
            results@.len() == pragma_addresses@.len() + 1,
        ensures
            match r {
                Ok(sw) => scenario_words_ok(
                    self.config,
                    scenario@,
                    pragma_addresses@,
                    results@,
                    sw,
                ),
                Err(DotrainOrderError::ScenarioNotFound(n)) => self.config.scenarios.spec_get(
                    scenario@,
                ) is None && n@ == scenario@,
                Err(_) => false,
            },
    {
        let sc = match self.config.scenarios.get(scenario) {
            Some(sc) => sc,
            None => {
                return Err(DotrainOrderError::ScenarioNotFound(scenario.clone()));
            },
        };
        let ghost results0 = results@;
        let mut rest = results;
        let deployer_result = rest.remove(0);
        proof {
            assert(deployer_result == results0[0]);
            assert(rest@ =~= results0.subrange(1, results0.len() as int));
        }
        let deployer_words = ContractWords {
            address: sc.deployer.address.clone(),
            words: WordsResult::from(deployer_result),
        };
        let pragma_words = zip_contract_words(pragma_addresses, rest);
        Ok(
            ScenarioWords {
                scenario: scenario.clone(),
                pragma_words,
                deployer_words,
            },
        )
    }

    /// Resolves the words of every configured scenario, one after another,
    /// in configuration order: the entry at each position is assembled from
    /// that scenario's own pragma addresses and fetch outcomes.
    #[verifier::loop_isolation(false)]
    pub fn get_all_scenarios_all_words(
        &self,
        per_scenario: Vec<(Vec<Address>, Vec<Result<AuthoringMetaV2, String>>)>,
    ) -> (r: Result<Vec<ScenarioWords>, DotrainOrderError>)
        requires
            self.wf(),
            per_scenario@.len() == self.config.scenarios.spec_len(),
            forall|i: int|
                0 <= i < per_scenario@.len() ==> (#[trigger] per_scenario@[i]).1@.len()
                    == per_scenario@[i].0@.len() + 1,
        ensures
            match r {
                Ok(v) => {
                    &&& v@.len() == self.config.scenarios.spec_len()
                    &&& forall|i: int|
                        0 <= i < v@.len() ==> scenario_words_ok(
                            self.config,
                            self.config.scenarios.key_list()[i],
                            per_scenario@[i].0@,
                            per_scenario@[i].1@,
                            #[trigger] v@[i],
                        )
                },
                Err(_) => false,
            },
    {
        let ghost per0 = per_scenario@;
        let mut rest = per_scenario;
        let mut out: Vec<ScenarioWords> = Vec::new();
        let n = self.config.scenarios.len();
        let mut i: usize = 0;
        while i < n
            invariant
                i <= n,
                n == self.config.scenarios.spec_len(),
                rest@ =~= per0.subrange(i as int, n as int),
                out@.len() == i,
                forall|j: int|
                    0 <= j < i ==> scenario_words_ok(
                        self.config,
                        self.config.scenarios.key_list()[j],
                        per0[j].0@,
                        per0[j].1@,
                        #[trigger] out@[j],
                    ),
            decreases n - i,
        {
            let (name, _) = self.config.scenarios.pair_at(i);
            let pair = rest.remove(0);
            proof {
                assert(pair == per0[i as int]);
                assert(rest@ =~= per0.subrange(i + 1, n as int));
            }
            match self.get_all_words_for_scenario(name, pair.0, pair.1) {
                Ok(sw) => {
                    out.push(sw);
                },
                Err(e) => {
                    return Err(e);
                },
            }
            i += 1;
        }
        Ok(out)
    }

    /// Checks the configuration's declared version tag against the build's:
    /// it succeeds exactly where the tags are equal, fails closed with a
    /// distinct error where no tag is declared, and reports both tags where
    /// they differ.
    pub fn validate_raindex_version(&self, app_sha: &String) -> (r: Result<(), DotrainOrderError>)
        ensures
            match r {
                Ok(_) => self.config.raindex_version matches Some(v) && v@ == app_sha@,
                Err(DotrainOrderError::MissingRaindexVersion(m)) => self.config.raindex_version
                    is None && m@ == app_sha@,
                Err(DotrainOrderError::RaindexVersionMismatch(got, expected)) => self
                    .config.raindex_version matches Some(v) && v@ != app_sha@ && got@ == app_sha@
                    && expected@ == v@,
                Err(_) => false,
            },
    {
        match &self.config.raindex_version {
            None => Err(DotrainOrderError::MissingRaindexVersion(app_sha.clone())),
            Some(v) => {
                if *v == *app_sha {
                    Ok(())
                } else {
                    Err(DotrainOrderError::RaindexVersionMismatch(app_sha.clone(), v.clone()))
                }
            },
        }
    }
}

/// Pairs each address with its own fetch outcome, in order.
#[verifier::loop_isolation(false)]
fn zip_contract_words(
    addrs: Vec<Address>,
    results: Vec<Result<AuthoringMetaV2, String>>,
) -> (r: Vec<ContractWords>)
    requires
        results@.len() == addrs@.len(),
    ensures
        zipped_contract_words(addrs@, results@, r@),
{
    let ghost addrs0 = addrs@;
    let ghost results0 = results@;
    let mut addrs = addrs;
    let mut results = results;
    let mut out: Vec<ContractWords> = Vec::new();
    let n = addrs.len();
    let mut i: usize = 0;
    while i < n
        invariant
            i <= n,
            n == addrs0.len(),
            addrs@ =~= addrs0.subrange(i as int, n as int),
            results@ =~= results0.subrange(i as int, n as int),
            out@.len() == i,
            forall|k: int|
                0 <= k < i ==> (#[trigger] out@[k]).address@ == addrs0[k]@ && words_from_result(
                    results0[k],
                    out@[k].words,
                ),
        decreases n - i,
    {
        let a = addrs.remove(0);
        let w = results.remove(0);
        proof {
            assert(a == addrs0[i as int]);
            assert(w == results0[i as int]);
        }
        out.push(ContractWords { address: a, words: WordsResult::from(w) });
        proof {
            assert(addrs@ =~= addrs0.subrange(i + 1, n as int));
            assert(results@ =~= results0.subrange(i + 1, n as int));
        }
        i += 1;
    }
    out
}

} // verus!
