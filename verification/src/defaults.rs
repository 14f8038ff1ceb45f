//! Defaults diff engine: the static baseline table of one client runtime's
//! out-of-the-box settings, and the reduction of a full settings snapshot to
//! only the entries that deviate from it.

use vstd::prelude::*;
use crate::settings::ClientSettings;
use crate::text::{contains_lit, contains_sub, str_eq};

verus! {

/// How an observed value is compared against its known default.
pub enum SettingCheck {
    /// The observed value must equal the expected text exactly.
    Exact(String),
    /// The observed value must contain the required substring.
    Contains(String),
}

/// The baseline rule for a setting name: `Some((true, text))` for an exact
/// comparison against `text`, `Some((false, text))` for a substring
/// requirement, `None` for a setting unknown to the baseline.
pub open spec fn default_rule(k: Seq<char>) -> Option<(bool, Seq<char>)> {
    if k == "sslEnabled"@ {
        Some((true, "false"@))
    } else if k == "sslKeystoreFile"@ {
        Some((true, "'null'"@))
    } else if k == "sslTruststoreFile"@ {
        Some((true, "'null'"@))
    } else if k == "sslKeystorePassword"@ {
        Some((true, "false"@))
    } else if k == "sslTruststorePassword"@ {
        Some((true, "false"@))
    } else if k == "sslKeystore"@ {
        Some((true, "null"@))
    } else if k == "sslTruststore"@ {
        Some((true, "null"@))
    } else if k == "bootstrapHttpEnabled"@ {
        Some((true, "true"@))
    } else if k == "bootstrapCarrierEnabled"@ {
        Some((true, "true"@))
    } else if k == "bootstrapHttpDirectPort"@ {
        Some((true, "8091"@))
    } else if k == "bootstrapHttpSslPort"@ {
        Some((true, "18091"@))
    } else if k == "bootstrapCarrierDirectPort"@ {
        Some((true, "11210"@))
    } else if k == "bootstrapCarrierSslPort"@ {
        Some((true, "11207"@))
    } else if k == "responseBufferSize"@ {
        Some((true, "16384"@))
    } else if k == "requestBufferSize"@ {
        Some((true, "16384"@))
    } else if k == "kvServiceEndpoints"@ {
        Some((true, "1"@))
    } else if k == "viewServiceEndpoints"@ {
        Some((true, "12"@))
    } else if k == "queryServiceEndpoints"@ {
        Some((true, "12"@))
    } else if k == "searchServiceEndpoints"@ {
        Some((true, "12"@))
    } else if k == "configPollInterval"@ {
        Some((true, "2500"@))
    } else if k == "configPollFloorInterval"@ {
        Some((true, "50"@))
    } else if k == "ioPool"@ {
        Some((true, "NioEventLoopGroup"@))
    } else if k == "kvIoPool"@ {
        Some((true, "null"@))
    } else if k == "viewIoPool"@ {
        Some((true, "null"@))
    } else if k == "searchIoPool"@ {
        Some((true, "null"@))
    } else if k == "queryIoPool"@ {
        Some((true, "null"@))
    } else if k == "coreScheduler"@ {
        Some((true, "CoreScheduler"@))
    } else if k == "memcachedHashingStrategy"@ {
        Some((true, "DefaultMemcachedHashingStrategy"@))
    } else if k == "eventBus"@ {
        Some((true, "DefaultEventBus"@))
    } else if k == "maxRequestLifetime"@ {
        Some((true, "75000"@))
    } else if k == "retryDelay"@ {
        Some((true, "ExponentialDelay{growBy 1.0 MICROSECONDSpowers of 2; lower=100upper=100000}"@))
    } else if k == "reconnectDelay"@ {
        Some((true, "ExponentialDelay{growBy 1.0 MILLISECONDSpowers of 2; lower=32upper=4096}"@))
    } else if k == "observeIntervalDelay"@ {
        Some((true, "ExponentialDelay{growBy 1.0 MICROSECONDSpowers of 2; lower=10upper=100000}"@))
    } else if k == "keepAliveInterval"@ {
        Some((true, "30000"@))
    } else if k == "continuousKeepAliveEnabled"@ {
        Some((true, "true"@))
    } else if k == "keepAliveErrorThreshold"@ {
        Some((true, "4"@))
    } else if k == "keepAliveTimeout"@ {
        Some((true, "2500"@))
    } else if k == "autoreleaseAfter"@ {
        Some((true, "2000"@))
    } else if k == "bufferPoolingEnabled"@ {
        Some((true, "true"@))
    } else if k == "tcpNodelayEnabled"@ {
        Some((true, "true"@))
    } else if k == "mutationTokensEnabled"@ {
        Some((true, "false"@))
    } else if k == "socketConnectTimeout"@ {
        Some((true, "1000"@))
    } else if k == "callbacksOnIoPool"@ {
        Some((true, "false"@))
    } else if k == "disconnectTimeout"@ {
        Some((true, "25000"@))
    } else if k == "requestBufferWaitStrategy"@ {
        Some((false, ".DefaultCoreEnvironment"@))
    } else if k == "certAuthEnabled"@ {
        Some((true, "false"@))
    } else if k == "coreSendHook"@ {
        Some((true, "null"@))
    } else if k == "forceSaslPlain"@ {
        Some((true, "false"@))
    } else if k == "compressionMinRatio"@ {
        Some((true, "0.83"@))
    } else if k == "compressionMinSize"@ {
        Some((true, "32"@))
    } else if k == "queryTimeout"@ {
        Some((true, "75000"@))
    } else if k == "viewTimeout"@ {
        Some((true, "75000"@))
    } else if k == "searchTimeout"@ {
        Some((true, "75000"@))
    } else if k == "analyticsTimeout"@ {
        Some((true, "75000"@))
    } else if k == "kvTimeout"@ {
        Some((true, "2500"@))
    } else if k == "connectTimeout"@ {
        Some((true, "5000"@))
    } else if k == "dnsSrvEnabled"@ {
        Some((true, "false"@))
    } else if k == "dcpConnectionName"@ {
        Some((true, "dcp/core-io"@))
    } else if k == "retryStrategy"@ {
        Some((true, "BestEffort"@))
    } else if k == "dcpConnectionBufferAckThreshold"@ {
        Some((true, "0.2"@))
    } else if k == "dcpEnabled"@ {
        Some((true, "false"@))
    } else if k == "dcpConnectionBufferSize"@ {
        Some((true, "20971520"@))
    } else {
        None
    }
}

/// Look a setting name up in the baseline table.
pub fn default_rule_lookup(key: &str) -> (r: Option<SettingCheck>)
    ensures
        match r {
            None => default_rule(key@) is None,
            Some(c) => match c {
                SettingCheck::Exact(s) => default_rule(key@) == Some((true, s@)),
                SettingCheck::Contains(s) => default_rule(key@) == Some((false, s@)),
            },
        },
{
    if str_eq(key, "sslEnabled") {
        Some(SettingCheck::Exact("false".to_owned()))
    } else if str_eq(key, "sslKeystoreFile") {
        Some(SettingCheck::Exact("'null'".to_owned()))
    } else if str_eq(key, "sslTruststoreFile") {
        Some(SettingCheck::Exact("'null'".to_owned()))
    } else if str_eq(key, "sslKeystorePassword") {
        Some(SettingCheck::Exact("false".to_owned()))
    } else if str_eq(key, "sslTruststorePassword") {
        Some(SettingCheck::Exact("false".to_owned()))
    } else if str_eq(key, "sslKeystore") {
        Some(SettingCheck::Exact("null".to_owned()))
    } else if str_eq(key, "sslTruststore") {
        Some(SettingCheck::Exact("null".to_owned()))
    } else if str_eq(key, "bootstrapHttpEnabled") {
        Some(SettingCheck::Exact("true".to_owned()))
    } else if str_eq(key, "bootstrapCarrierEnabled") {
        Some(SettingCheck::Exact("true".to_owned()))
    } else if str_eq(key, "bootstrapHttpDirectPort") {
        Some(SettingCheck::Exact("8091".to_owned()))
    } else if str_eq(key, "bootstrapHttpSslPort") {
        Some(SettingCheck::Exact("18091".to_owned()))
    } else if str_eq(key, "bootstrapCarrierDirectPort") {
        Some(SettingCheck::Exact("11210".to_owned()))
    } else if str_eq(key, "bootstrapCarrierSslPort") {
        Some(SettingCheck::Exact("11207".to_owned()))
    } else if str_eq(key, "responseBufferSize") {
        Some(SettingCheck::Exact("16384".to_owned()))
    } else if str_eq(key, "requestBufferSize") {
        Some(SettingCheck::Exact("16384".to_owned()))
    } else if str_eq(key, "kvServiceEndpoints") {
        Some(SettingCheck::Exact("1".to_owned()))
    } else if str_eq(key, "viewServiceEndpoints") {
        Some(SettingCheck::Exact("12".to_owned()))
    } else if str_eq(key, "queryServiceEndpoints") {
        Some(SettingCheck::Exact("12".to_owned()))
    } else if str_eq(key, "searchServiceEndpoints") {
        Some(SettingCheck::Exact("12".to_owned()))
    } else if str_eq(key, "configPollInterval") {
        Some(SettingCheck::Exact("2500".to_owned()))
    } else if str_eq(key, "configPollFloorInterval") {
        Some(SettingCheck::Exact("50".to_owned()))
    } else if str_eq(key, "ioPool") {
        Some(SettingCheck::Exact("NioEventLoopGroup".to_owned()))
    } else if str_eq(key, "kvIoPool") {
        Some(SettingCheck::Exact("null".to_owned()))
    } else if str_eq(key, "viewIoPool") {
        Some(SettingCheck::Exact("null".to_owned()))
    } else if str_eq(key, "searchIoPool") {
        Some(SettingCheck::Exact("null".to_owned()))
    } else if str_eq(key, "queryIoPool") {
        Some(SettingCheck::Exact("null".to_owned()))
    } else if str_eq(key, "coreScheduler") {
        Some(SettingCheck::Exact("CoreScheduler".to_owned()))
    } else if str_eq(key, "memcachedHashingStrategy") {
        Some(SettingCheck::Exact("DefaultMemcachedHashingStrategy".to_owned()))
    } else if str_eq(key, "eventBus") {
        Some(SettingCheck::Exact("DefaultEventBus".to_owned()))
    } else if str_eq(key, "maxRequestLifetime") {
        Some(SettingCheck::Exact("75000".to_owned()))
    } else if str_eq(key, "retryDelay") {
        Some(SettingCheck::Exact("ExponentialDelay{growBy 1.0 MICROSECONDSpowers of 2; lower=100upper=100000}".to_owned()))
    } else if str_eq(key, "reconnectDelay") {
        Some(SettingCheck::Exact("ExponentialDelay{growBy 1.0 MILLISECONDSpowers of 2; lower=32upper=4096}".to_owned()))
    } else if str_eq(key, "observeIntervalDelay") {
        Some(SettingCheck::Exact("ExponentialDelay{growBy 1.0 MICROSECONDSpowers of 2; lower=10upper=100000}".to_owned()))
    } else if str_eq(key, "keepAliveInterval") {
        Some(SettingCheck::Exact("30000".to_owned()))
    } else if str_eq(key, "continuousKeepAliveEnabled") {
        Some(SettingCheck::Exact("true".to_owned()))
    } else if str_eq(key, "keepAliveErrorThreshold") {
        Some(SettingCheck::Exact("4".to_owned()))
    } else if str_eq(key, "keepAliveTimeout") {
        Some(SettingCheck::Exact("2500".to_owned()))
    } else if str_eq(key, "autoreleaseAfter") {
        Some(SettingCheck::Exact("2000".to_owned()))
    } else if str_eq(key, "bufferPoolingEnabled") {
        Some(SettingCheck::Exact("true".to_owned()))
    } else if str_eq(key, "tcpNodelayEnabled") {
        Some(SettingCheck::Exact("true".to_owned()))
    } else if str_eq(key, "mutationTokensEnabled") {
        Some(SettingCheck::Exact("false".to_owned()))
    } else if str_eq(key, "socketConnectTimeout") {
        Some(SettingCheck::Exact("1000".to_owned()))
    } else if str_eq(key, "callbacksOnIoPool") {
        Some(SettingCheck::Exact("false".to_owned()))
    } else if str_eq(key, "disconnectTimeout") {
        Some(SettingCheck::Exact("25000".to_owned()))
    } else if str_eq(key, "requestBufferWaitStrategy") {
        Some(SettingCheck::Contains(".DefaultCoreEnvironment".to_owned()))
    } else if str_eq(key, "certAuthEnabled") {
        Some(SettingCheck::Exact("false".to_owned()))
    } else if str_eq(key, "coreSendHook") {
        Some(SettingCheck::Exact("null".to_owned()))
    } else if str_eq(key, "forceSaslPlain") {
        Some(SettingCheck::Exact("false".to_owned()))
    } else if str_eq(key, "compressionMinRatio") {
        Some(SettingCheck::Exact("0.83".to_owned()))
    } else if str_eq(key, "compressionMinSize") {
        Some(SettingCheck::Exact("32".to_owned()))
    } else if str_eq(key, "queryTimeout") {
        Some(SettingCheck::Exact("75000".to_owned()))
    } else if str_eq(key, "viewTimeout") {
        Some(SettingCheck::Exact("75000".to_owned()))
    } else if str_eq(key, "searchTimeout") {
        Some(SettingCheck::Exact("75000".to_owned()))
    } else if str_eq(key, "analyticsTimeout") {
        Some(SettingCheck::Exact("75000".to_owned()))
    } else if str_eq(key, "kvTimeout") {
        Some(SettingCheck::Exact("2500".to_owned()))
    } else if str_eq(key, "connectTimeout") {
        Some(SettingCheck::Exact("5000".to_owned()))
    } else if str_eq(key, "dnsSrvEnabled") {
        Some(SettingCheck::Exact("false".to_owned()))
    } else if str_eq(key, "dcpConnectionName") {
        Some(SettingCheck::Exact("dcp/core-io".to_owned()))
    } else if str_eq(key, "retryStrategy") {
        Some(SettingCheck::Exact("BestEffort".to_owned()))
    } else if str_eq(key, "dcpConnectionBufferAckThreshold") {
        Some(SettingCheck::Exact("0.2".to_owned()))
    } else if str_eq(key, "dcpEnabled") {
        Some(SettingCheck::Exact("false".to_owned()))
    } else if str_eq(key, "dcpConnectionBufferSize") {
        Some(SettingCheck::Exact("20971520".to_owned()))
    } else {
        None
    }
}


/// The diff of one observed setting against the baseline: an unknown key is
/// surfaced with its observed value; a known key whose comparison fails is
/// surfaced with the expected baseline text; a key that matches its default
/// is omitted.
pub open spec fn diff_pair(k: Seq<char>, v: Seq<char>) -> Option<(Seq<char>, Seq<char>)> {
    match default_rule(k) {
        Option::None => Some((k, v)),
        Option::Some(rule) => {
            if rule.0 {
                if v != rule.1 {
                    Some((k, rule.1))
                } else {
                    None
                }
            } else {
                if !contains_lit(v, rule.1) {
                    Some((k, rule.1))
                } else {
                    None
                }
            }
        },
    }
}

/// The diff of a whole snapshot, in storage order.
pub open spec fn diff_pairs(ps: Seq<(Seq<char>, Seq<char>)>) -> Seq<(Seq<char>, Seq<char>)>
    decreases ps.len(),
{
    if ps.len() == 0 {
        Seq::empty()
    } else {
        let prev = diff_pairs(ps.drop_last());
        match diff_pair(ps.last().0, ps.last().1) {
            Option::Some(p) => prev.push(p),
            Option::None => prev,
        }
    }
}

impl ClientSettings {
    /// The settings that deviate from the baseline: every key the baseline
    /// does not know, with its observed value, and every known key whose
    /// comparison fails, with the expected baseline text instead of the
    /// observed one.
    pub fn non_defaults(&self) -> (r: ClientSettings)
        ensures
            r.pairs() == diff_pairs(self.pairs()),
            self.wf() ==> r.wf(),
    {
        proof {
            lemma_diff_pairs_keys(self.pairs());
        }
        let n = self.len();
        let mut out = ClientSettings::new();
        let mut i: usize = 0;
        while i < n
            invariant
                n == self.pairs().len(),
                i <= n,
                out.pairs() == diff_pairs(self.pairs().subrange(0, i as int)),
            decreases n - i,
        {
            proof {
                let ps = self.pairs();
                assert(ps.subrange(0, i + 1).drop_last() =~= ps.subrange(0, i as int));
                assert(ps.subrange(0, i + 1).last() == ps[i as int]);
            }
            let (key, val) = self.pair_at(i);
            match default_rule_lookup(key.as_str()) {
                None => {
                    out.push_pair(key, val);
                },
                Some(SettingCheck::Exact(e)) => {
                    if !str_eq(val.as_str(), e.as_str()) {
                        out.push_pair(key, e);
                    }
                },
                Some(SettingCheck::Contains(c)) => {
                    if !contains_sub(val.as_str(), c.as_str()) {
                        out.push_pair(key, c);
                    }
                },
            }
            i += 1;
        }
        proof {
            assert(self.pairs().subrange(0, n as int) =~= self.pairs());
        }
        out
    }
}


/// Every key the diff surfaces comes from the snapshot, so a snapshot with
/// unique keys yields a diff with unique keys.
pub proof fn lemma_diff_pairs_keys(ps: Seq<(Seq<char>, Seq<char>)>)
    ensures
        forall|j: int|
            0 <= j < diff_pairs(ps).len() ==> exists|m: int|
                0 <= m < ps.len() && (#[trigger] diff_pairs(ps)[j]).0 == ps[m].0,
        crate::settings::wf_pairs(ps) ==> crate::settings::wf_pairs(diff_pairs(ps)),
    decreases ps.len(),
{
    if ps.len() == 0 {
    } else {
        let dl = ps.drop_last();
        let n = ps.len() as int;
        lemma_diff_pairs_keys(dl);
        assert(forall|x: int| 0 <= x < n - 1 ==> #[trigger] dl[x] == ps[x]);
        if crate::settings::wf_pairs(ps) {
            assert(crate::settings::wf_pairs(dl));
        }
        let prev = diff_pairs(dl);
        match diff_pair(ps.last().0, ps.last().1) {
            Option::Some(p) => {
                let r = diff_pairs(ps);
                assert(r == prev.push(p));
                assert(p.0 == ps[n - 1].0);
                assert forall|j: int| 0 <= j < r.len() implies exists|m: int|
                    0 <= m < ps.len() && (#[trigger] r[j]).0 == ps[m].0 by {
                    if j < prev.len() {
                        let m = choose|m: int| 0 <= m < dl.len() && (#[trigger] prev[j]).0
                            == dl[m].0;
                        assert(r[j].0 == ps[m].0);
                    } else {
                        assert(r[j].0 == ps[n - 1].0);
                    }
                }
                if crate::settings::wf_pairs(ps) {
                    assert forall|x: int, y: int|
                        0 <= x < y < r.len() implies r[x].0 != r[y].0 by {
                        if y < prev.len() {
                            assert(prev[x].0 != prev[y].0);
                        } else {
                            let m = choose|m: int| 0 <= m < dl.len() && (#[trigger] prev[x]).0
                                == dl[m].0;
                            assert(ps[m].0 != ps[n - 1].0);
                        }
                    }
                }
            },
            Option::None => {
            },
        }
    }
}

} // verus!