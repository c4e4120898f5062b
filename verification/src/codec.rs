//! The on-disk form of an index: one ASCII JSON container with the
//! configuration and the cluster records. The encoder is specified byte for
//! byte; the parser accepts exactly this shape and leaves semantic
//! validation to the restore path, which re-establishes every invariant
//! before an index is handed back.

use vstd::prelude::*;

use crate::config::{Config, MetricsOutput};
use crate::index::ClusterCenter;

verus! {

/// Decimal digits of n, most significant first.
pub open spec fn dec_u64(n: nat) -> Seq<u8>
    decreases n,
{
    if n < 10 {
        seq![(48 + n) as u8]
    } else {
        dec_u64(n / 10).push((48 + n % 10) as u8)
    }
}

/// Writes the decimal digits of n.
pub fn enc_u64_push(out: &mut Vec<u8>, n: u64)
    ensures
        final(out)@ == old(out)@ + dec_u64(n as nat),
    decreases n,
{
    if n < 10 {
        out.push(48 + n as u8);
        proof {
            assert(out@ =~= old(out)@ + dec_u64(n as nat));
        }
    } else {
        enc_u64_push(out, n / 10);
        out.push(48 + (n % 10) as u8);
        proof {
            assert(out@ =~= old(out)@ + dec_u64(n as nat));
        }
    }
}

/// A ratio in thousandths as a decimal: integer part, a dot, and one to
/// three fraction digits with trailing zeros trimmed.
pub open spec fn enc_milli_spec(v: nat) -> Seq<u8> {
    let f = v % 1000;
    dec_u64(v / 1000) + seq![46u8] + (if f == 0 {
        seq![48u8]
    } else if f % 100 == 0 {
        seq![(48 + f / 100) as u8]
    } else if f % 10 == 0 {
        seq![(48 + f / 100) as u8, (48 + (f / 10) % 10) as u8]
    } else {
        seq![(48 + f / 100) as u8, (48 + (f / 10) % 10) as u8, (48 + f % 10) as u8]
    })
}

/// Writes a ratio held in thousandths as a decimal.
pub fn enc_milli_push(out: &mut Vec<u8>, v: u64)
    ensures
        final(out)@ == old(out)@ + enc_milli_spec(v as nat),
{
    enc_u64_push(out, v / 1000);
    out.push(46);
    let f = v % 1000;
    if f == 0 {
        out.push(48);
    } else if f % 100 == 0 {
        out.push(48 + (f / 100) as u8);
    } else if f % 10 == 0 {
        out.push(48 + (f / 100) as u8);
        out.push(48 + ((f / 10) % 10) as u8);
    } else {
        out.push(48 + (f / 100) as u8);
        out.push(48 + ((f / 10) % 10) as u8);
        out.push(48 + (f % 10) as u8);
    }
    proof {
        assert(out@ =~= old(out)@ + enc_milli_spec(v as nat));
    }
}

/// A dataset name can be stored as it is when every byte is printable
/// ASCII and neither a quote nor a backslash.
pub open spec fn name_serializable(name: Seq<u8>) -> bool {
    forall|i: int| 0 <= i < name.len()
        ==> 32 <= #[trigger] name[i] <= 126 && name[i] != 34 && name[i] != 92
}

/// Checks that a name can be stored as it is.
pub fn check_name_serializable(name: &Vec<u8>) -> (r: bool)
    ensures
        r == name_serializable(name@),
{
    let mut i: usize = 0;
    while i < name.len()
        invariant
            i <= name@.len(),
            forall|t: int| 0 <= t < i
                ==> 32 <= #[trigger] name@[t] <= 126 && name@[t] != 34 && name@[t] != 92,
        decreases name@.len() - i,
    {
        let b = name[i];
        if !(32 <= b && b <= 126) || b == 34 || b == 92 {
            return false;
        }
        i += 1;
    }
    true
}

/// The byte form of `{"num_tables":`.
pub open spec fn lit_cfg_open() -> Seq<u8> {
    seq![123u8, 34u8, 110u8, 117u8, 109u8, 95u8, 116u8, 97u8, 98u8, 108u8, 101u8, 115u8, 34u8, 58u8]
}

fn emit_lit_cfg_open(out: &mut Vec<u8>)
    ensures
        final(out)@ == old(out)@ + lit_cfg_open(),
{
    let ghost pre = out@;
    out.push(123u8);
    out.push(34u8);
    out.push(110u8);
    out.push(117u8);
    out.push(109u8);
    out.push(95u8);
    out.push(116u8);
    out.push(97u8);
    out.push(98u8);
    out.push(108u8);
    out.push(101u8);
    out.push(115u8);
    out.push(34u8);
    out.push(58u8);
    proof {
        assert(out@ =~= pre + lit_cfg_open());
    }
}

/// The byte form of `,"num_clusters_factor":`.
pub open spec fn lit_cfg_factor() -> Seq<u8> {
    seq![44u8, 34u8, 110u8, 117u8, 109u8, 95u8, 99u8, 108u8, 117u8, 115u8, 116u8, 101u8, 114u8, 115u8, 95u8, 102u8, 97u8, 99u8, 116u8, 111u8, 114u8, 34u8, 58u8]
}

fn emit_lit_cfg_factor(out: &mut Vec<u8>)
    ensures
        final(out)@ == old(out)@ + lit_cfg_factor(),
{
    let ghost pre = out@;
    out.push(44u8);
    out.push(34u8);
    out.push(110u8);
    out.push(117u8);
    out.push(109u8);
    out.push(95u8);
    out.push(99u8);
    out.push(108u8);
    out.push(117u8);
    out.push(115u8);
    out.push(116u8);
    out.push(101u8);
    out.push(114u8);
    out.push(115u8);
    out.push(95u8);
    out.push(102u8);
    out.push(97u8);
    out.push(99u8);
    out.push(116u8);
    out.push(111u8);
    out.push(114u8);
    out.push(34u8);
    out.push(58u8);
    proof {
        assert(out@ =~= pre + lit_cfg_factor());
    }
}

/// The byte form of `,"k":`.
pub open spec fn lit_cfg_k() -> Seq<u8> {
    seq![44u8, 34u8, 107u8, 34u8, 58u8]
}

fn emit_lit_cfg_k(out: &mut Vec<u8>)
    ensures
        final(out)@ == old(out)@ + lit_cfg_k(),
{
    let ghost pre = out@;
    out.push(44u8);
    out.push(34u8);
    out.push(107u8);
    out.push(34u8);
    out.push(58u8);
    proof {
        assert(out@ =~= pre + lit_cfg_k());
    }
}

/// The byte form of `,"delta":`.
pub open spec fn lit_cfg_delta() -> Seq<u8> {
    seq![44u8, 34u8, 100u8, 101u8, 108u8, 116u8, 97u8, 34u8, 58u8]
}

fn emit_lit_cfg_delta(out: &mut Vec<u8>)
    ensures
        final(out)@ == old(out)@ + lit_cfg_delta(),
{
    let ghost pre = out@;
    out.push(44u8);
    out.push(34u8);
    out.push(100u8);
    out.push(101u8);
    out.push(108u8);
    out.push(116u8);
    out.push(97u8);
    out.push(34u8);
    out.push(58u8);
    proof {
        assert(out@ =~= pre + lit_cfg_delta());
    }
}

/// The byte form of `,"dataset_name":"`.
pub open spec fn lit_cfg_name() -> Seq<u8> {
    seq![44u8, 34u8, 100u8, 97u8, 116u8, 97u8, 115u8, 101u8, 116u8, 95u8, 110u8, 97u8, 109u8, 101u8, 34u8, 58u8, 34u8]
}

fn emit_lit_cfg_name(out: &mut Vec<u8>)
    ensures
        final(out)@ == old(out)@ + lit_cfg_name(),
{
    let ghost pre = out@;
    out.push(44u8);
    out.push(34u8);
    out.push(100u8);
    out.push(97u8);
    out.push(116u8);
    out.push(97u8);
    out.push(115u8);
    out.push(101u8);
    out.push(116u8);
    out.push(95u8);
    out.push(110u8);
    out.push(97u8);
    out.push(109u8);
    out.push(101u8);
    out.push(34u8);
    out.push(58u8);
    out.push(34u8);
    proof {
        assert(out@ =~= pre + lit_cfg_name());
    }
}

/// The byte form of `","metrics_output":"`.
pub open spec fn lit_cfg_metrics() -> Seq<u8> {
    seq![34u8, 44u8, 34u8, 109u8, 101u8, 116u8, 114u8, 105u8, 99u8, 115u8, 95u8, 111u8, 117u8, 116u8, 112u8, 117u8, 116u8, 34u8, 58u8, 34u8]
}

fn emit_lit_cfg_metrics(out: &mut Vec<u8>)
    ensures
        final(out)@ == old(out)@ + lit_cfg_metrics(),
{
    let ghost pre = out@;
    out.push(34u8);
    out.push(44u8);
    out.push(34u8);
    out.push(109u8);
    out.push(101u8);
    out.push(116u8);
    out.push(114u8);
    out.push(105u8);
    out.push(99u8);
    out.push(115u8);
    out.push(95u8);
    out.push(111u8);
    out.push(117u8);
    out.push(116u8);
    out.push(112u8);
    out.push(117u8);
    out.push(116u8);
    out.push(34u8);
    out.push(58u8);
    out.push(34u8);
    proof {
        assert(out@ =~= pre + lit_cfg_metrics());
    }
}

/// The byte form of `DB`.
pub open spec fn lit_db() -> Seq<u8> {
    seq![68u8, 66u8]
}

fn emit_lit_db(out: &mut Vec<u8>)
    ensures
        final(out)@ == old(out)@ + lit_db(),
{
    let ghost pre = out@;
    out.push(68u8);
    out.push(66u8);
    proof {
        assert(out@ =~= pre + lit_db());
    }
}

/// The byte form of `None`.
pub open spec fn lit_none() -> Seq<u8> {
    seq![78u8, 111u8, 110u8, 101u8]
}

fn emit_lit_none(out: &mut Vec<u8>)
    ensures
        final(out)@ == old(out)@ + lit_none(),
{
    let ghost pre = out@;
    out.push(78u8);
    out.push(111u8);
    out.push(110u8);
    out.push(101u8);
    proof {
        assert(out@ =~= pre + lit_none());
    }
}

/// The byte form of `"}`.
pub open spec fn lit_cfg_close() -> Seq<u8> {
    seq![34u8, 125u8]
}

fn emit_lit_cfg_close(out: &mut Vec<u8>)
    ensures
        final(out)@ == old(out)@ + lit_cfg_close(),
{
    let ghost pre = out@;
    out.push(34u8);
    out.push(125u8);
    proof {
        assert(out@ =~= pre + lit_cfg_close());
    }
}

/// The byte form of `{"idx":`.
pub open spec fn lit_cl_open() -> Seq<u8> {
    seq![123u8, 34u8, 105u8, 100u8, 120u8, 34u8, 58u8]
}

fn emit_lit_cl_open(out: &mut Vec<u8>)
    ensures
        final(out)@ == old(out)@ + lit_cl_open(),
{
    let ghost pre = out@;
    out.push(123u8);
    out.push(34u8);
    out.push(105u8);
    out.push(100u8);
    out.push(120u8);
    out.push(34u8);
    out.push(58u8);
    proof {
        assert(out@ =~= pre + lit_cl_open());
    }
}

/// The byte form of `,"center_idx":`.
pub open spec fn lit_cl_center() -> Seq<u8> {
    seq![44u8, 34u8, 99u8, 101u8, 110u8, 116u8, 101u8, 114u8, 95u8, 105u8, 100u8, 120u8, 34u8, 58u8]
}

fn emit_lit_cl_center(out: &mut Vec<u8>)
    ensures
        final(out)@ == old(out)@ + lit_cl_center(),
{
    let ghost pre = out@;
    out.push(44u8);
    out.push(34u8);
    out.push(99u8);
    out.push(101u8);
    out.push(110u8);
    out.push(116u8);
    out.push(101u8);
    out.push(114u8);
    out.push(95u8);
    out.push(105u8);
    out.push(100u8);
    out.push(120u8);
    out.push(34u8);
    out.push(58u8);
    proof {
        assert(out@ =~= pre + lit_cl_center());
    }
}

/// The byte form of `,"radius":`.
pub open spec fn lit_cl_radius() -> Seq<u8> {
    seq![44u8, 34u8, 114u8, 97u8, 100u8, 105u8, 117u8, 115u8, 34u8, 58u8]
}

fn emit_lit_cl_radius(out: &mut Vec<u8>)
    ensures
        final(out)@ == old(out)@ + lit_cl_radius(),
{
    let ghost pre = out@;
    out.push(44u8);
    out.push(34u8);
    out.push(114u8);
    out.push(97u8);
    out.push(100u8);
    out.push(105u8);
    out.push(117u8);
    out.push(115u8);
    out.push(34u8);
    out.push(58u8);
    proof {
        assert(out@ =~= pre + lit_cl_radius());
    }
}

/// The byte form of `,"assignment":[`.
pub open spec fn lit_cl_assignment() -> Seq<u8> {
    seq![44u8, 34u8, 97u8, 115u8, 115u8, 105u8, 103u8, 110u8, 109u8, 101u8, 110u8, 116u8, 34u8, 58u8, 91u8]
}

fn emit_lit_cl_assignment(out: &mut Vec<u8>)
    ensures
        final(out)@ == old(out)@ + lit_cl_assignment(),
{
    let ghost pre = out@;
    out.push(44u8);
    out.push(34u8);
    out.push(97u8);
    out.push(115u8);
    out.push(115u8);
    out.push(105u8);
    out.push(103u8);
    out.push(110u8);
    out.push(109u8);
    out.push(101u8);
    out.push(110u8);
    out.push(116u8);
    out.push(34u8);
    out.push(58u8);
    out.push(91u8);
    proof {
        assert(out@ =~= pre + lit_cl_assignment());
    }
}

/// The byte form of `],"brute_force":`.
pub open spec fn lit_cl_brute() -> Seq<u8> {
    seq![93u8, 44u8, 34u8, 98u8, 114u8, 117u8, 116u8, 101u8, 95u8, 102u8, 111u8, 114u8, 99u8, 101u8, 34u8, 58u8]
}

fn emit_lit_cl_brute(out: &mut Vec<u8>)
    ensures
        final(out)@ == old(out)@ + lit_cl_brute(),
{
    let ghost pre = out@;
    out.push(93u8);
    out.push(44u8);
    out.push(34u8);
    out.push(98u8);
    out.push(114u8);
    out.push(117u8);
    out.push(116u8);
    out.push(101u8);
    out.push(95u8);
    out.push(102u8);
    out.push(111u8);
    out.push(114u8);
    out.push(99u8);
    out.push(101u8);
    out.push(34u8);
    out.push(58u8);
    proof {
        assert(out@ =~= pre + lit_cl_brute());
    }
}

/// The byte form of `true`.
pub open spec fn lit_true() -> Seq<u8> {
    seq![116u8, 114u8, 117u8, 101u8]
}

fn emit_lit_true(out: &mut Vec<u8>)
    ensures
        final(out)@ == old(out)@ + lit_true(),
{
    let ghost pre = out@;
    out.push(116u8);
    out.push(114u8);
    out.push(117u8);
    out.push(101u8);
    proof {
        assert(out@ =~= pre + lit_true());
    }
}

/// The byte form of `false`.
pub open spec fn lit_false() -> Seq<u8> {
    seq![102u8, 97u8, 108u8, 115u8, 101u8]
}

fn emit_lit_false(out: &mut Vec<u8>)
    ensures
        final(out)@ == old(out)@ + lit_false(),
{
    let ghost pre = out@;
    out.push(102u8);
    out.push(97u8);
    out.push(108u8);
    out.push(115u8);
    out.push(101u8);
    proof {
        assert(out@ =~= pre + lit_false());
    }
}

/// The byte form of `,"memory_used":`.
pub open spec fn lit_cl_memory() -> Seq<u8> {
    seq![44u8, 34u8, 109u8, 101u8, 109u8, 111u8, 114u8, 121u8, 95u8, 117u8, 115u8, 101u8, 100u8, 34u8, 58u8]
}

fn emit_lit_cl_memory(out: &mut Vec<u8>)
    ensures
        final(out)@ == old(out)@ + lit_cl_memory(),
{
    let ghost pre = out@;
    out.push(44u8);
    out.push(34u8);
    out.push(109u8);
    out.push(101u8);
    out.push(109u8);
    out.push(111u8);
    out.push(114u8);
    out.push(121u8);
    out.push(95u8);
    out.push(117u8);
    out.push(115u8);
    out.push(101u8);
    out.push(100u8);
    out.push(34u8);
    out.push(58u8);
    proof {
        assert(out@ =~= pre + lit_cl_memory());
    }
}

/// The byte form of `}`.
pub open spec fn lit_cl_close() -> Seq<u8> {
    seq![125u8]
}

fn emit_lit_cl_close(out: &mut Vec<u8>)
    ensures
        final(out)@ == old(out)@ + lit_cl_close(),
{
    let ghost pre = out@;
    out.push(125u8);
    proof {
        assert(out@ =~= pre + lit_cl_close());
    }
}

/// The byte form of `{"config":`.
pub open spec fn lit_ct_open() -> Seq<u8> {
    seq![123u8, 34u8, 99u8, 111u8, 110u8, 102u8, 105u8, 103u8, 34u8, 58u8]
}

fn emit_lit_ct_open(out: &mut Vec<u8>)
    ensures
        final(out)@ == old(out)@ + lit_ct_open(),
{
    let ghost pre = out@;
    out.push(123u8);
    out.push(34u8);
    out.push(99u8);
    out.push(111u8);
    out.push(110u8);
    out.push(102u8);
    out.push(105u8);
    out.push(103u8);
    out.push(34u8);
    out.push(58u8);
    proof {
        assert(out@ =~= pre + lit_ct_open());
    }
}

/// The byte form of `,"clusters":[`.
pub open spec fn lit_ct_clusters() -> Seq<u8> {
    seq![44u8, 34u8, 99u8, 108u8, 117u8, 115u8, 116u8, 101u8, 114u8, 115u8, 34u8, 58u8, 91u8]
}

fn emit_lit_ct_clusters(out: &mut Vec<u8>)
    ensures
        final(out)@ == old(out)@ + lit_ct_clusters(),
{
    let ghost pre = out@;
    out.push(44u8);
    out.push(34u8);
    out.push(99u8);
    out.push(108u8);
    out.push(117u8);
    out.push(115u8);
    out.push(116u8);
    out.push(101u8);
    out.push(114u8);
    out.push(115u8);
    out.push(34u8);
    out.push(58u8);
    out.push(91u8);
    proof {
        assert(out@ =~= pre + lit_ct_clusters());
    }
}

/// The byte form of `]}`.
pub open spec fn lit_ct_close() -> Seq<u8> {
    seq![93u8, 125u8]
}

fn emit_lit_ct_close(out: &mut Vec<u8>)
    ensures
        final(out)@ == old(out)@ + lit_ct_close(),
{
    let ghost pre = out@;
    out.push(93u8);
    out.push(125u8);
    proof {
        assert(out@ =~= pre + lit_ct_close());
    }
}

/// The byte form of `,`.
pub open spec fn lit_comma() -> Seq<u8> {
    seq![44u8]
}

fn emit_lit_comma(out: &mut Vec<u8>)
    ensures
        final(out)@ == old(out)@ + lit_comma(),
{
    let ghost pre = out@;
    out.push(44u8);
    proof {
        assert(out@ =~= pre + lit_comma());
    }
}

/// The JSON form of a configuration.
pub open spec fn enc_config_spec(cfg: Config) -> Seq<u8> {
    lit_cfg_open() + (dec_u64(cfg.num_tables as nat) + (lit_cfg_factor()
        + (enc_milli_spec(cfg.num_clusters_factor as nat) + (lit_cfg_k() + (dec_u64(cfg.k as nat)
        + (lit_cfg_delta() + (enc_milli_spec(cfg.delta as nat) + (lit_cfg_name()
        + (cfg.dataset_name@ + (lit_cfg_metrics() + ((if cfg.metrics_output is DB {
        lit_db()
    } else {
        lit_none()
    }) + lit_cfg_close())))))))))))
}

/// Writes the JSON form of a configuration.
#[verifier::rlimit(100)]
pub fn enc_config_push(out: &mut Vec<u8>, cfg: &Config)
    ensures
        final(out)@ == old(out)@ + enc_config_spec(*cfg),
{
    emit_lit_cfg_open(out);
    enc_u64_push(out, cfg.num_tables as u64);
    emit_lit_cfg_factor(out);
    enc_milli_push(out, cfg.num_clusters_factor as u64);
    emit_lit_cfg_k(out);
    enc_u64_push(out, cfg.k as u64);
    emit_lit_cfg_delta(out);
    enc_milli_push(out, cfg.delta as u64);
    emit_lit_cfg_name(out);
    out.extend_from_slice(cfg.dataset_name.as_slice());
    emit_lit_cfg_metrics(out);
    match cfg.metrics_output {
        MetricsOutput::DB => emit_lit_db(out),
        MetricsOutput::NoOutput => emit_lit_none(out),
    }
    emit_lit_cfg_close(out);
    proof {
        assert(out@ =~= old(out)@ + enc_config_spec(*cfg));
    }
}

/// The JSON form of the first m entries of a u64 array, separators included.
pub open spec fn enc_u64_array_prefix(a: Seq<usize>, m: int) -> Seq<u8>
    decreases m,
{
    if m <= 0 {
        Seq::empty()
    } else if m == 1 {
        dec_u64(a[0] as nat)
    } else {
        enc_u64_array_prefix(a, m - 1) + lit_comma() + dec_u64(a[m - 1] as nat)
    }
}

/// Writes the members of a u64 array, separated by commas.
pub fn enc_u64_array_push(out: &mut Vec<u8>, a: &Vec<usize>)
    ensures
        final(out)@ == old(out)@ + enc_u64_array_prefix(a@, a@.len() as int),
{
    let mut i: usize = 0;
    while i < a.len()
        invariant
            i <= a@.len(),
            out@ == old(out)@ + enc_u64_array_prefix(a@, i as int),
        decreases a@.len() - i,
    {
        if i > 0 {
            emit_lit_comma(out);
        }
        enc_u64_push(out, a[i] as u64);
        i += 1;
    }
}

/// The JSON form of one cluster record.
pub open spec fn enc_cluster_spec(cl: ClusterCenter) -> Seq<u8> {
    lit_cl_open() + (dec_u64(cl.idx as nat) + (lit_cl_center() + (dec_u64(cl.center_idx as nat)
        + (lit_cl_radius() + (dec_u64(cl.radius as nat) + (lit_cl_assignment()
        + (enc_u64_array_prefix(cl.assignment@, cl.assignment@.len() as int) + (lit_cl_brute()
        + ((if cl.brute_force {
        lit_true()
    } else {
        lit_false()
    }) + (lit_cl_memory() + (dec_u64(cl.memory_used as nat) + lit_cl_close())))))))))))
}

/// Writes the JSON form of one cluster record.
#[verifier::rlimit(100)]
pub fn enc_cluster_push(out: &mut Vec<u8>, cl: &ClusterCenter)
    ensures
        final(out)@ == old(out)@ + enc_cluster_spec(*cl),
{
    emit_lit_cl_open(out);
    enc_u64_push(out, cl.idx as u64);
    emit_lit_cl_center(out);
    enc_u64_push(out, cl.center_idx as u64);
    emit_lit_cl_radius(out);
    enc_u64_push(out, cl.radius);
    emit_lit_cl_assignment(out);
    enc_u64_array_push(out, &cl.assignment);
    emit_lit_cl_brute(out);
    if cl.brute_force {
        emit_lit_true(out);
    } else {
        emit_lit_false(out);
    }
    emit_lit_cl_memory(out);
    enc_u64_push(out, cl.memory_used as u64);
    emit_lit_cl_close(out);
    proof {
        assert(out@ =~= old(out)@ + enc_cluster_spec(*cl));
    }
}

/// The JSON form of the first m cluster records, separators included.
pub open spec fn enc_clusters_prefix(cls: Seq<ClusterCenter>, m: int) -> Seq<u8>
    decreases m,
{
    if m <= 0 {
        Seq::empty()
    } else if m == 1 {
        enc_cluster_spec(cls[0])
    } else {
        enc_clusters_prefix(cls, m - 1) + lit_comma() + enc_cluster_spec(cls[m - 1])
    }
}

/// The whole container: the configuration and the cluster array.
pub open spec fn enc_container_spec(cfg: Config, cls: Seq<ClusterCenter>) -> Seq<u8> {
    lit_ct_open() + (enc_config_spec(cfg) + (lit_ct_clusters()
        + (enc_clusters_prefix(cls, cls.len() as int) + lit_ct_close())))
}

/// Writes the whole container.
#[verifier::rlimit(100)]
pub fn enc_container_push(out: &mut Vec<u8>, cfg: &Config, cls: &Vec<ClusterCenter>)
    ensures
        final(out)@ == old(out)@ + enc_container_spec(*cfg, cls@),
{
    emit_lit_ct_open(out);
    enc_config_push(out, cfg);
    emit_lit_ct_clusters(out);
    let mut i: usize = 0;
    while i < cls.len()
        invariant
            i <= cls@.len(),
            out@ == old(out)@ + lit_ct_open() + enc_config_spec(*cfg) + lit_ct_clusters()
                + enc_clusters_prefix(cls@, i as int),
        decreases cls@.len() - i,
    {
        if i > 0 {
            emit_lit_comma(out);
        }
        enc_cluster_push(out, &cls[i]);
        i += 1;
    }
    emit_lit_ct_close(out);
    proof {
        assert(out@ =~= old(out)@ + enc_container_spec(*cfg, cls@));
    }
}

pub open spec fn is_digit(b: u8) -> bool {
    48 <= b <= 57
}

/// A byte region of `s` starting at `pos` holds exactly `piece`.
pub open spec fn enc_at(s: Seq<u8>, pos: int, piece: Seq<u8>) -> bool {
    0 <= pos && pos + piece.len() <= s.len() && s.subrange(pos, pos + piece.len()) == piece
}

/// The numeric value of a digit string, most significant first.
pub open spec fn value_of(digs: Seq<u8>) -> int
    decreases digs.len(),
{
    if digs.len() == 0 {
        0
    } else {
        value_of(digs.drop_last()) * 10 + (digs.last() as int - 48)
    }
}

proof fn lemma_value_of_dec(v: nat)
    ensures
        value_of(dec_u64(v)) == v,
    decreases v,
{
    if v < 10 {
        assert(dec_u64(v).drop_last() =~= Seq::<u8>::empty());
        assert(value_of(Seq::<u8>::empty()) == 0);
        assert(dec_u64(v).last() == (48 + v) as u8);
    } else {
        lemma_value_of_dec(v / 10);
        assert(dec_u64(v).drop_last() =~= dec_u64(v / 10));
        assert(dec_u64(v).last() == (48 + v % 10) as u8);
    }
}

proof fn lemma_value_of_nonneg(digs: Seq<u8>)
    requires
        forall|t: int| 0 <= t < digs.len() ==> is_digit(#[trigger] digs[t]),
    ensures
        value_of(digs) >= 0,
    decreases digs.len(),
{
    if digs.len() == 0 {
    } else {
        assert(forall|t: int| 0 <= t < digs.len() - 1 ==> digs.drop_last()[t] == digs[t]);
        lemma_value_of_nonneg(digs.drop_last());
    }
}

/// The value of a digit-string prefix never exceeds the whole value.
proof fn lemma_value_of_prefix(digs: Seq<u8>, m: int)
    requires
        forall|t: int| 0 <= t < digs.len() ==> is_digit(#[trigger] digs[t]),
        0 <= m <= digs.len(),
    ensures
        0 <= value_of(digs.take(m)) <= value_of(digs),
    decreases digs.len() - m,
{
    assert(forall|m2: int, t: int| 0 <= m2 <= digs.len() && 0 <= t < m2
        ==> digs.take(m2)[t] == digs[t]);
    lemma_value_of_nonneg(digs.take(m));
    if m == digs.len() {
        assert(digs.take(m) =~= digs);
    } else {
        lemma_value_of_prefix(digs, m + 1);
        assert(digs.take(m + 1).drop_last() =~= digs.take(m));
        assert(value_of(digs.take(m + 1))
            == value_of(digs.take(m)) * 10 + (digs[m] as int - 48));
        assert(value_of(digs.take(m)) * 10 >= value_of(digs.take(m))) by (nonlinear_arith)
            requires value_of(digs.take(m)) >= 0;
    }
}

/// Reads a run of decimal digits. Fails on a missing digit or on a value
/// that does not fit in a u64; succeeds with exactly `v` wherever the
/// digits of `v` stand followed by a non-digit.
pub fn parse_u64(s: &[u8], pos: usize) -> (r: Option<(u64, usize)>)
    ensures
        r matches Some(t) ==> pos <= t.1 <= s@.len(),
        forall|v: u64|
            #[trigger] enc_at(s@, pos as int, dec_u64(v as nat))
                && (pos + dec_u64(v as nat).len() == s@.len()
                    || !is_digit(s@[pos + dec_u64(v as nat).len()]))
                ==> r == Some((v, (pos + dec_u64(v as nat).len()) as usize)),
{
    let n = s.len();
    if pos >= n || !(48 <= s[pos] && s[pos] <= 57) {
        proof {
            assert forall|v: u64|
                enc_at(s@, pos as int, dec_u64(v as nat))
                    && (pos + dec_u64(v as nat).len() == s@.len()
                        || !is_digit(s@[pos + dec_u64(v as nat).len()])) implies false by {
                lemma_dec_u64_digits(v as nat);
                assert(s@.subrange(pos as int, pos + dec_u64(v as nat).len())[0]
                    == dec_u64(v as nat)[0]);
            }
        }
        return None;
    }
    let mut p = pos;
    let mut acc: u64 = 0;
    while p < n && 48 <= s[p] && s[p] <= 57
        invariant
            pos <= p <= n,
            n == s@.len(),
            forall|t: int| pos <= t < p ==> is_digit(#[trigger] s@[t]),
            acc as int == value_of(s@.subrange(pos as int, p as int)),
        decreases n - p,
    {
        let d = (s[p] - 48) as u64;
        if acc > (u64::MAX - d) / 10 {
            proof {
                assert forall|v: u64|
                    enc_at(s@, pos as int, dec_u64(v as nat))
                        && (pos + dec_u64(v as nat).len() == s@.len()
                            || !is_digit(s@[pos + dec_u64(v as nat).len()])) implies false by {
                    lemma_dec_u64_digits(v as nat);
                    lemma_value_of_dec(v as nat);
                    let dv = dec_u64(v as nat);
                    let dl = dv.len() as int;
                    // the scanned digits are a strict prefix of the digits of v
                    assert(p - pos < dl) by {
                        if p - pos >= dl {
                            assert(is_digit(s@[pos + dl]));
                        }
                    }
                    assert(s@.subrange(pos as int, p as int) =~= dv.take(p - pos)) by {
                        assert(forall|t: int| 0 <= t < dl
                            ==> s@.subrange(pos as int, pos + dl)[t] == dv[t]);
                        assert(forall|t: int| 0 <= t < p - pos ==> s@[pos + t] == dv[t]);
                    }
                    assert(s@[p as int] == dv[p - pos]);
                    lemma_value_of_prefix(dv, p - pos + 1);
                    assert(dv.take(p - pos + 1).drop_last() =~= dv.take(p - pos));
                    assert(value_of(dv.take(p - pos + 1))
                        == (acc as int) * 10 + (d as int));
                    assert(dv.take(dl as int) =~= dv);
                    assert((acc as int) * 10 + (d as int) <= v as int);
                    assert((acc as int) * 10 + (d as int) > u64::MAX as int) by (nonlinear_arith)
                        requires
                            acc as int > (u64::MAX as int - d as int) / 10,
                            0 <= d as int <= 9,
                            acc as int >= 0;
                }
            }
            return None;
        }
        acc = acc * 10 + d;
        proof {
            let pre = s@.subrange(pos as int, p as int);
            assert(s@.subrange(pos as int, p + 1) =~= pre.push(s@[p as int]));
            assert(pre.push(s@[p as int]).drop_last() =~= pre);
            assert(pre.push(s@[p as int]).last() == s@[p as int]);
        }
        p += 1;
    }
    proof {
        assert forall|v: u64|
            enc_at(s@, pos as int, dec_u64(v as nat))
                && (pos + dec_u64(v as nat).len() == s@.len()
                    || !is_digit(s@[pos + dec_u64(v as nat).len()])) implies Some((acc, p))
            == Some((v, (pos + dec_u64(v as nat).len()) as usize)) by {
            lemma_dec_u64_digits(v as nat);
            lemma_value_of_dec(v as nat);
            let dv = dec_u64(v as nat);
            let dl = dv.len() as int;
            assert(forall|t: int| 0 <= t < dl
                ==> s@.subrange(pos as int, pos + dl)[t] == dv[t]);
            assert(forall|t: int| 0 <= t < dl ==> s@[pos + t] == dv[t]);
            // the loop stopped exactly at the end of the digits of v
            assert(p - pos >= dl) by {
                if p - pos < dl {
                    assert(s@[p as int] == dv[p - pos]);
                    assert(is_digit(s@[p as int]));
                    assert(p < n);
                }
            }
            assert(p - pos <= dl) by {
                if p - pos > dl {
                    assert(is_digit(s@[pos + dl]));
                }
            }
            assert(s@.subrange(pos as int, p as int) =~= dv);
            assert(acc as int == v as int);
        }
    }
    Some((acc, p))
}

/// Reads a decimal ratio into thousandths: an integer part, a dot, and one
/// to three fraction digits. Succeeds with exactly `v` wherever the ratio
/// encoding of `v` stands followed by a non-digit.
#[verifier::rlimit(100)]
pub fn parse_milli(s: &[u8], pos: usize) -> (r: Option<(u64, usize)>)
    ensures
        r matches Some(t) ==> pos <= t.1 <= s@.len(),
        forall|v: u64|
            v <= u32::MAX && #[trigger] enc_at(s@, pos as int, enc_milli_spec(v as nat))
                && (pos + enc_milli_spec(v as nat).len() == s@.len()
                    || !is_digit(s@[pos + enc_milli_spec(v as nat).len()]))
                ==> r == Some((v, (pos + enc_milli_spec(v as nat).len()) as usize)),
{
    proof {
        // how the pieces of a ratio encoding sit in the input
        assert forall|v: u64|
            v <= u32::MAX && #[trigger] enc_at(s@, pos as int, enc_milli_spec(v as nat))
                implies enc_at(s@, pos as int, dec_u64((v / 1000) as nat))
                && enc_at(s@, pos + dec_u64((v / 1000) as nat).len(), seq![46u8])
                && enc_at(
                s@,
                pos + dec_u64((v / 1000) as nat).len() + 1,
                frac_digits((v % 1000) as nat),
            ) by {
            let dv = dec_u64((v / 1000) as nat);
            let fv = frac_digits((v % 1000) as nat);
            assert(enc_milli_spec(v as nat) == dv + seq![46u8] + fv);
            lemma_enc_at_split(s@, pos as int, dv + seq![46u8], fv);
            lemma_enc_at_split(s@, pos as int, dv, seq![46u8]);
        }
    }
    let n = s.len();
    let pr = parse_u64(s, pos);
    let (ip, p1) = match pr {
        Some(t) => t,
        None => {
            proof {
                assert forall|v: u64|
                    v <= u32::MAX && enc_at(s@, pos as int, enc_milli_spec(v as nat))
                        && (pos + enc_milli_spec(v as nat).len() == s@.len()
                            || !is_digit(s@[pos + enc_milli_spec(v as nat).len()]))
                        implies false by {
                    let ipv = (v / 1000) as u64;
                    let dv = dec_u64(ipv as nat);
                    assert(enc_at(s@, pos as int, dv));
                    assert(s@.subrange(
                        pos + dv.len(),
                        pos + dv.len() + 1,
                    )[0] == 46);
                    assert(s@[pos + dv.len()] == 46);
                    assert(pr == Some((ipv, (pos + dv.len()) as usize)));
                }
            }
            return None;
        },
    };
    if p1 >= n || s[p1] != 46 {
        proof {
            assert forall|v: u64|
                v <= u32::MAX && enc_at(s@, pos as int, enc_milli_spec(v as nat))
                    && (pos + enc_milli_spec(v as nat).len() == s@.len()
                        || !is_digit(s@[pos + enc_milli_spec(v as nat).len()]))
                    implies false by {
                let ipv = (v / 1000) as u64;
                let dv = dec_u64(ipv as nat);
                assert(s@.subrange(pos + dv.len(), pos + dv.len() + 1)[0] == 46);
                assert(s@[pos + dv.len()] == 46);
                assert(pr == Some((ipv, (pos + dv.len()) as usize)));
                assert(p1 == pos + dv.len());
                assert(pos + enc_milli_spec(v as nat).len() <= n);
            }
        }
        return None;
    }
    let mut p = p1 + 1;
    let mut frac: u64 = 0;
    let mut digits: usize = 0;
    while p < n && 48 <= s[p] && s[p] <= 57 && digits < 3
        invariant
            pos <= p1 < p <= n,
            p - p1 - 1 == digits,
            n == s@.len(),
            digits <= 3,
            frac <= 999,
            digits <= 2 ==> frac <= 99,
            digits <= 1 ==> frac <= 9,
            digits == 0 ==> frac == 0,
            forall|t: int| p1 + 1 <= t < p ==> is_digit(#[trigger] s@[t]),
            frac as int == value_of(s@.subrange(p1 + 1, p as int)),
        decreases n - p,
    {
        frac = frac * 10 + (s[p] - 48) as u64;
        digits += 1;
        proof {
            let pre = s@.subrange(p1 + 1, p as int);
            assert(s@.subrange(p1 + 1, p + 1) =~= pre.push(s@[p as int]));
            assert(pre.push(s@[p as int]).drop_last() =~= pre);
            assert(pre.push(s@[p as int]).last() == s@[p as int]);
        }
        p += 1;
    }
    proof {
        // on a well-formed ratio, the loop consumed exactly the fraction
        assert forall|v: u64|
            v <= u32::MAX && enc_at(s@, pos as int, enc_milli_spec(v as nat))
                && (pos + enc_milli_spec(v as nat).len() == s@.len()
                    || !is_digit(s@[pos + enc_milli_spec(v as nat).len()]))
                implies p == pos + enc_milli_spec(v as nat).len()
                && digits as int == frac_digits((v % 1000) as nat).len()
                && frac as int == value_of(frac_digits((v % 1000) as nat))
                && ip == (v / 1000) as u64 by {
            let ipv = (v / 1000) as u64;
            let dv = dec_u64(ipv as nat);
            let fv = frac_digits((v % 1000) as nat);
            lemma_frac_digits_are_digits((v % 1000) as nat);
            assert(s@.subrange(pos + dv.len(), pos + dv.len() + 1)[0] == 46);
            assert(s@[pos + dv.len()] == 46);
            assert(pr == Some((ipv, (pos + dv.len()) as usize)));
            assert(p1 == pos + dv.len());
            let f0 = p1 + 1;
            assert(forall|t: int| 0 <= t < fv.len()
                ==> s@.subrange(f0, f0 + fv.len())[t] == fv[t]);
            assert(forall|t: int| 0 <= t < fv.len() ==> s@[f0 + t] == fv[t]);
            let elen = enc_milli_spec(v as nat).len() as int;
            assert(elen == dv.len() + 1 + fv.len());
            assert(p - f0 >= fv.len()) by {
                if p - f0 < fv.len() {
                    assert(s@[p as int] == fv[p - f0]);
                    assert(is_digit(s@[p as int]));
                    assert(p < n);
                    assert(digits < 3);
                }
            }
            assert(p - f0 <= fv.len()) by {
                if p - f0 > fv.len() {
                    assert(is_digit(s@[f0 + fv.len()]));
                    assert(f0 + fv.len() == pos + elen);
                }
            }
            assert(s@.subrange(f0, p as int) =~= fv);
        }
    }
    if digits == 0 {
        return None;
    }
    if p < n && 48 <= s[p] && s[p] <= 57 {
        // more than three fraction digits cannot come from this encoder
        return None;
    }
    let scale: u64 = if digits == 1 {
        100
    } else if digits == 2 {
        10
    } else {
        1
    };
    if ip > (u64::MAX - 999) / 1000 {
        proof {
            assert forall|v: u64|
                v <= u32::MAX && enc_at(s@, pos as int, enc_milli_spec(v as nat))
                    && (pos + enc_milli_spec(v as nat).len() == s@.len()
                        || !is_digit(s@[pos + enc_milli_spec(v as nat).len()]))
                    implies false by {
                assert(ip == (v / 1000) as u64);
            }
        }
        return None;
    }
    proof {
        assert(frac * scale <= 999) by (nonlinear_arith)
            requires
                (scale == 100 && frac <= 9) || (scale == 10 && frac <= 99) || (scale == 1
                    && frac <= 999);
        assert forall|v: u64|
            v <= u32::MAX && enc_at(s@, pos as int, enc_milli_spec(v as nat))
                && (pos + enc_milli_spec(v as nat).len() == s@.len()
                    || !is_digit(s@[pos + enc_milli_spec(v as nat).len()]))
                implies ip * 1000 + frac * scale == v by {
            let f = (v % 1000) as nat;
            let fv = frac_digits(f);
            assert(digits as int == fv.len());
            assert(frac as int == value_of(fv));
            // the fraction digits recover v % 1000 at the chosen scale
            if f == 0 {
                assert(fv =~= seq![48u8]);
                assert(fv.drop_last() =~= Seq::<u8>::empty());
                assert(value_of(fv) == 0);
            } else if f % 100 == 0 {
                assert(fv =~= seq![(48 + f / 100) as u8]);
                assert(fv.drop_last() =~= Seq::<u8>::empty());
                assert(value_of(fv) == f / 100);
                assert(f == 100 * (f / 100)) by (nonlinear_arith)
                    requires f % 100 == 0, f < 1000;
            } else if f % 10 == 0 {
                assert(fv =~= seq![(48 + f / 100) as u8, (48 + (f / 10) % 10) as u8]);
                assert(fv.drop_last() =~= seq![(48 + f / 100) as u8]);
                assert(fv.drop_last().drop_last() =~= Seq::<u8>::empty());
                assert(f / 100 <= 9 && (f / 10) % 10 <= 9);
                assert(fv.last() as int - 48 == (f / 10) % 10);
                assert(fv.drop_last().last() as int - 48 == f / 100);
                assert(value_of(Seq::<u8>::empty()) == 0);
                assert(value_of(fv.drop_last()) == f / 100);
                assert(value_of(fv) == (f / 100) * 10 + (f / 10) % 10);
                assert(f / 10 == (f / 100) * 10 + (f / 10) % 10) by (nonlinear_arith)
                    requires f < 1000;
                assert(f == 10 * (f / 10)) by (nonlinear_arith)
                    requires f % 10 == 0, f < 1000;
            } else {
                assert(fv =~= seq![
                    (48 + f / 100) as u8,
                    (48 + (f / 10) % 10) as u8,
                    (48 + f % 10) as u8,
                ]);
                assert(fv.drop_last() =~= seq![(48 + f / 100) as u8, (48 + (f / 10) % 10) as u8]);
                assert(fv.drop_last().drop_last() =~= seq![(48 + f / 100) as u8]);
                assert(fv.drop_last().drop_last().drop_last() =~= Seq::<u8>::empty());
                assert(f / 100 <= 9 && (f / 10) % 10 <= 9 && f % 10 <= 9);
                assert(fv.last() as int - 48 == f % 10);
                assert(fv.drop_last().last() as int - 48 == (f / 10) % 10);
                assert(fv.drop_last().drop_last().last() as int - 48 == f / 100);
                assert(value_of(Seq::<u8>::empty()) == 0);
                assert(value_of(fv.drop_last().drop_last()) == f / 100);
                assert(value_of(fv.drop_last()) == (f / 100) * 10 + (f / 10) % 10);
                assert(value_of(fv) == ((f / 100) * 10 + (f / 10) % 10) * 10 + f % 10);
                assert(f == ((f / 100) * 10 + (f / 10) % 10) * 10 + f % 10) by (nonlinear_arith)
                    requires f < 1000;
            }
            assert(v == 1000 * (v as int / 1000) + v as int % 1000) by (nonlinear_arith);
        }
    }
    Some((ip * 1000 + frac * scale, p))
}

/// A region holds a concatenation exactly when it holds the parts in turn.
proof fn lemma_enc_at_split(s: Seq<u8>, pos: int, a: Seq<u8>, b: Seq<u8>)
    ensures
        enc_at(s, pos, a + b) <==> (enc_at(s, pos, a) && enc_at(s, pos + a.len(), b)),
{
    if enc_at(s, pos, a + b) {
        assert(s.subrange(pos, pos + a.len()) =~= a) by {
            assert(forall|t: int| 0 <= t < a.len()
                ==> s.subrange(pos, pos + (a + b).len())[t] == (a + b)[t]);
        }
        assert forall|t: int| 0 <= t < b.len() implies
            s.subrange(pos + a.len(), pos + a.len() + b.len())[t] == #[trigger] b[t] by {
            assert(s.subrange(pos, pos + (a + b).len())[a.len() + t] == (a + b)[a.len() + t]);
            assert((a + b)[a.len() + t] == b[t]);
            assert(s[pos + a.len() + t] == b[t]);
        }
        assert(s.subrange(pos + a.len(), pos + a.len() + b.len()) =~= b);
    }
    if enc_at(s, pos, a) && enc_at(s, pos + a.len(), b) {
        assert(s.subrange(pos, pos + (a + b).len()) =~= a + b) by {
            assert(forall|t: int| 0 <= t < a.len()
                ==> s.subrange(pos, pos + a.len())[t] == a[t]);
            assert(forall|t: int| 0 <= t < b.len()
                ==> s.subrange(pos + a.len(), pos + a.len() + b.len())[t] == b[t]);
        }
    }
}

/// Consumes an expected literal; succeeds whenever the literal is there.
pub fn parse_lit(s: &[u8], pos: usize, lit: &Vec<u8>) -> (r: Option<usize>)
    ensures
        r matches Some(p) ==> pos <= p <= s@.len() && p == pos + lit@.len()
            && enc_at(s@, pos as int, lit@),
        enc_at(s@, pos as int, lit@) ==> r == Some((pos + lit@.len()) as usize),
{
    let n = s.len();
    if pos > n || lit.len() > n - pos {
        return None;
    }
    let mut i: usize = 0;
    while i < lit.len()
        invariant
            i <= lit@.len(),
            pos + lit@.len() <= n,
            n == s@.len(),
            forall|t: int| 0 <= t < i ==> s@[pos + t] == #[trigger] lit@[t],
        decreases lit@.len() - i,
    {
        if s[pos + i] != lit[i] {
            proof {
                if enc_at(s@, pos as int, lit@) {
                    assert(s@.subrange(pos as int, pos + lit@.len())[i as int] == lit@[i as int]);
                }
            }
            return None;
        }
        i += 1;
    }
    proof {
        assert(s@.subrange(pos as int, pos + lit@.len()) =~= lit@);
    }
    Some(pos + lit.len())
}

/// Reads a stored name: every byte up to the closing quote. Succeeds with
/// exactly the stored bytes wherever a storable name stands before a quote.
pub fn parse_name(s: &[u8], pos: usize) -> (r: Option<(Vec<u8>, usize)>)
    ensures
        r matches Some(t) ==> pos <= t.1 <= s@.len(),
        forall|name: Seq<u8>|
            #[trigger] enc_at(s@, pos as int, name) && name_serializable(name)
                && pos + name.len() < s@.len() && s@[pos + name.len()] == 34
                ==> (r matches Some(t) && t.0@ == name && t.1 == pos + name.len()),
{
    let n = s.len();
    if pos > n {
        return None;
    }
    let mut p = pos;
    let mut out: Vec<u8> = Vec::new();
    while p < n && s[p] != 34
        invariant
            pos <= p <= n,
            n == s@.len(),
            out@ == s@.subrange(pos as int, p as int),
            forall|t: int| pos <= t < p ==> #[trigger] s@[t] != 34,
        decreases n - p,
    {
        out.push(s[p]);
        proof {
            assert(out@ =~= s@.subrange(pos as int, p + 1));
        }
        p += 1;
    }
    if p >= n {
        proof {
            assert forall|name: Seq<u8>|
                enc_at(s@, pos as int, name) && name_serializable(name)
                    && pos + name.len() < s@.len() && s@[pos + name.len()] == 34
                    implies false by {
                assert(forall|t: int| 0 <= t < name.len()
                    ==> s@.subrange(pos as int, pos + name.len())[t] == name[t]);
                if p - pos < name.len() {
                    assert(s@[p as int] == name[p - pos]);
                    assert(name[p - pos] != 34);
                } else {
                    assert(pos + name.len() < n);
                }
            }
        }
        return None;
    }
    proof {
        assert forall|name: Seq<u8>|
            enc_at(s@, pos as int, name) && name_serializable(name)
                && pos + name.len() < s@.len() && s@[pos + name.len()] == 34
                implies out@ == name && p == pos + name.len() by {
            assert(forall|t: int| 0 <= t < name.len()
                ==> s@.subrange(pos as int, pos + name.len())[t] == name[t]);
            assert(p - pos >= name.len()) by {
                if p - pos < name.len() {
                    assert(s@[p as int] == name[p - pos]);
                    assert(name[p - pos] != 34);
                }
            }
            assert(p - pos <= name.len()) by {
                if p - pos > name.len() {
                    assert(s@[pos + name.len()] != 34);
                }
            }
            assert(out@ =~= name);
        }
    }
    Some((out, p))
}

/// Reads a u64 that must fit in usize; reads back exactly what the
/// encoder wrote for a usize value.
fn parse_usize(s: &[u8], pos: usize) -> (r: Option<(usize, usize)>)
    ensures
        r matches Some(t) ==> pos <= t.1 <= s@.len(),
        forall|v: usize|
            #[trigger] enc_at(s@, pos as int, dec_u64(v as nat))
                && (pos + dec_u64(v as nat).len() == s@.len()
                    || !is_digit(s@[pos + dec_u64(v as nat).len()]))
                ==> r == Some((v, (pos + dec_u64(v as nat).len()) as usize)),
{
    let pr = parse_u64(s, pos);
    proof {
        assert forall|v: usize|
            enc_at(s@, pos as int, dec_u64(v as nat))
                && (pos + dec_u64(v as nat).len() == s@.len()
                    || !is_digit(s@[pos + dec_u64(v as nat).len()]))
                implies pr == Some((v as u64, (pos + dec_u64(v as nat).len()) as usize)) by {
            assert(enc_at(s@, pos as int, dec_u64((v as u64) as nat)));
        }
    }
    match pr {
        Some((v, p)) => {
            if v <= usize::MAX as u64 {
                Some((v as usize, p))
            } else {
                None
            }
        },
        None => None,
    }
}

/// Reads the comma-separated continuation of an array into `out`,
/// stopping before `]`; reads back exactly what the encoder wrote.
fn parse_arr_tail(s: &[u8], pos: usize, out: &mut Vec<usize>) -> (r: Option<usize>)
    ensures
        r matches Some(p) ==> pos <= p <= s@.len(),
        forall|x: Seq<usize>|
            #[trigger] enc_at(s@, pos as int, enc_arr_tail(x))
                && pos + enc_arr_tail(x).len() < s@.len()
                && s@[pos + enc_arr_tail(x).len()] == 93
                ==> (r == Some((pos + enc_arr_tail(x).len()) as usize)
                    && final(out)@ == old(out)@ + x),
    decreases s@.len() - pos,
{
    let n = s.len();
    if pos < n && s[pos] == 44 {
        let pr = parse_usize(s, pos + 1);
        let (v, p2) = match pr {
            Some(t) => t,
            None => {
                proof {
                    assert forall|x: Seq<usize>|
                        #[trigger] enc_at(s@, pos as int, enc_arr_tail(x))
                            && pos + enc_arr_tail(x).len() < s@.len()
                            && s@[pos + enc_arr_tail(x).len()] == 93 implies false by {
                        assert(x.len() > 0) by {
                            if x.len() == 0 {
                                assert(enc_arr_tail(x).len() == 0);
                                assert(s@[pos as int] == 93);
                            }
                        }
                        let d0 = dec_u64(x[0] as nat);
                        let rest = enc_arr_tail(x.drop_first());
                        assert(enc_arr_tail(x) == lit_comma() + (d0 + rest));
                        lemma_enc_at_split(s@, pos as int, lit_comma(), d0 + rest);
                        lemma_enc_at_split(s@, pos + 1, d0, rest);
                        assert(pos + 1 + d0.len() == s@.len()
                            || !is_digit(s@[pos + 1 + d0.len()])) by {
                            if rest.len() > 0 {
                                assert(s@.subrange(
                                    pos + 1 + d0.len(),
                                    pos + 1 + d0.len() + rest.len(),
                                )[0] == rest[0]);
                                assert(rest[0] == lit_comma()[0]);
                            } else {
                                assert(pos + 1 + d0.len() == pos + enc_arr_tail(x).len());
                            }
                        }
                        assert(pr == Some((x[0], (pos + 1 + d0.len()) as usize)));
                    }
                }
                return None;
            },
        };
        out.push(v);
        let ghost mid = out@;
        let rr = parse_arr_tail(s, p2, out);
        proof {
            assert forall|x: Seq<usize>|
                #[trigger] enc_at(s@, pos as int, enc_arr_tail(x))
                    && pos + enc_arr_tail(x).len() < s@.len()
                    && s@[pos + enc_arr_tail(x).len()] == 93 implies
                rr == Some((pos + enc_arr_tail(x).len()) as usize)
                    && out@ == old(out)@ + x by {
                assert(x.len() > 0) by {
                    if x.len() == 0 {
                        assert(s@[pos as int] == 93);
                    }
                }
                let d0 = dec_u64(x[0] as nat);
                let rest = enc_arr_tail(x.drop_first());
                assert(enc_arr_tail(x) == lit_comma() + (d0 + rest));
                lemma_enc_at_split(s@, pos as int, lit_comma(), d0 + rest);
                lemma_enc_at_split(s@, pos + 1, d0, rest);
                assert(pos + 1 + d0.len() == s@.len()
                    || !is_digit(s@[pos + 1 + d0.len()])) by {
                    if rest.len() > 0 {
                        assert(s@.subrange(
                            pos + 1 + d0.len(),
                            pos + 1 + d0.len() + rest.len(),
                        )[0] == rest[0]);
                        assert(rest[0] == lit_comma()[0]);
                    } else {
                        assert(pos + 1 + d0.len() == pos + enc_arr_tail(x).len());
                    }
                }
                assert(pr == Some((x[0], (pos + 1 + d0.len()) as usize)));
                assert(v == x[0] && p2 == pos + 1 + d0.len());
                assert(enc_at(s@, p2 as int, rest));
                assert(p2 + rest.len() == pos + enc_arr_tail(x).len());
                assert(rr == Some((p2 + rest.len()) as usize)
                    && out@ == mid + x.drop_first());
                assert(mid + x.drop_first() =~= old(out)@ + x);
            }
        }
        return rr;
    } else {
        if pos > n {
            proof {
                assert forall|x: Seq<usize>|
                    #[trigger] enc_at(s@, pos as int, enc_arr_tail(x))
                        && pos + enc_arr_tail(x).len() < s@.len()
                        && s@[pos + enc_arr_tail(x).len()] == 93 implies false by {
                    assert(pos + enc_arr_tail(x).len() < n);
                }
            }
            return None;
        }
        proof {
            assert forall|x: Seq<usize>|
                #[trigger] enc_at(s@, pos as int, enc_arr_tail(x))
                    && pos + enc_arr_tail(x).len() < s@.len()
                    && s@[pos + enc_arr_tail(x).len()] == 93 implies
                enc_arr_tail(x).len() == 0 && out@ == old(out)@ + x by {
                if x.len() > 0 {
                    assert(enc_arr_tail(x)
                        == lit_comma() + (dec_u64(x[0] as nat) + enc_arr_tail(x.drop_first())));
                    assert(s@.subrange(pos as int, pos + enc_arr_tail(x).len())[0]
                        == enc_arr_tail(x)[0]);
                    assert(s@[pos as int] == 44);
                    assert(pos < n);
                }
                assert(enc_arr_tail(x) =~= Seq::<u8>::empty());
                assert(out@ =~= old(out)@ + x);
            }
        }
        Some(pos)
    }
}

/// Reads a comma-separated run of array members, stopping before `]`;
/// reads back exactly what the encoder wrote.
fn parse_usize_array(s: &[u8], pos: usize) -> (r: Option<(Vec<usize>, usize)>)
    ensures
        r matches Some(t) ==> pos <= t.1 <= s@.len(),
        forall|a: Seq<usize>|
            #[trigger] enc_at(s@, pos as int, enc_arr_head(a))
                && pos + enc_arr_head(a).len() < s@.len()
                && s@[pos + enc_arr_head(a).len()] == 93
                ==> (r matches Some(t) && t.0@ == a
                    && t.1 == pos + enc_arr_head(a).len()),
{
    let n = s.len();
    if pos > n {
        return None;
    }
    let mut out: Vec<usize> = Vec::new();
    if pos < n && s[pos] == 93 {
        proof {
            assert forall|a: Seq<usize>|
                #[trigger] enc_at(s@, pos as int, enc_arr_head(a))
                    && pos + enc_arr_head(a).len() < s@.len()
                    && s@[pos + enc_arr_head(a).len()] == 93 implies
                out@ == a && pos == pos + enc_arr_head(a).len() by {
                if a.len() > 0 {
                    lemma_dec_u64_digits(a[0] as nat);
                    assert(enc_arr_head(a)
                        == dec_u64(a[0] as nat) + enc_arr_tail(a.drop_first()));
                    assert(s@.subrange(pos as int, pos + enc_arr_head(a).len())[0]
                        == enc_arr_head(a)[0]);
                    assert(enc_arr_head(a)[0] == dec_u64(a[0] as nat)[0]);
                    assert(is_digit(s@[pos as int]));
                }
                assert(out@ =~= a);
            }
        }
        return Some((out, pos));
    }
    let pr = parse_usize(s, pos);
    let (v, p2) = match pr {
        Some(t) => t,
        None => {
            proof {
                assert forall|a: Seq<usize>|
                    #[trigger] enc_at(s@, pos as int, enc_arr_head(a))
                        && pos + enc_arr_head(a).len() < s@.len()
                        && s@[pos + enc_arr_head(a).len()] == 93 implies false by {
                    assert(a.len() > 0) by {
                        if a.len() == 0 {
                            assert(enc_arr_head(a).len() == 0);
                            assert(pos < n && s@[pos as int] == 93);
                        }
                    }
                    let d0 = dec_u64(a[0] as nat);
                    let rest = enc_arr_tail(a.drop_first());
                    assert(enc_arr_head(a) == d0 + rest);
                    lemma_enc_at_split(s@, pos as int, d0, rest);
                    assert(pos + d0.len() == s@.len() || !is_digit(s@[pos + d0.len()])) by {
                        if rest.len() > 0 {
                            assert(s@.subrange(
                                pos + d0.len(),
                                pos + d0.len() + rest.len(),
                            )[0] == rest[0]);
                            assert(rest[0] == lit_comma()[0]);
                        } else {
                            assert(pos + d0.len() == pos + enc_arr_head(a).len());
                        }
                    }
                    assert(pr == Some((a[0], (pos + d0.len()) as usize)));
                }
            }
            return None;
        },
    };
    out.push(v);
    let ghost mid = out@;
    let rr = parse_arr_tail(s, p2, &mut out);
    let p3 = match rr {
        Some(p) => p,
        None => {
            proof {
                assert forall|a: Seq<usize>|
                    #[trigger] enc_at(s@, pos as int, enc_arr_head(a))
                        && pos + enc_arr_head(a).len() < s@.len()
                        && s@[pos + enc_arr_head(a).len()] == 93 implies false by {
                    assert(a.len() > 0) by {
                        if a.len() == 0 {
                            assert(pos < n && s@[pos as int] == 93);
                        }
                    }
                    let d0 = dec_u64(a[0] as nat);
                    let rest = enc_arr_tail(a.drop_first());
                    assert(enc_arr_head(a) == d0 + rest);
                    lemma_enc_at_split(s@, pos as int, d0, rest);
                    assert(pos + d0.len() == s@.len() || !is_digit(s@[pos + d0.len()])) by {
                        if rest.len() > 0 {
                            assert(s@.subrange(
                                pos + d0.len(),
                                pos + d0.len() + rest.len(),
                            )[0] == rest[0]);
                            assert(rest[0] == lit_comma()[0]);
                        } else {
                            assert(pos + d0.len() == pos + enc_arr_head(a).len());
                        }
                    }
                    assert(pr == Some((a[0], (pos + d0.len()) as usize)));
                    assert(v == a[0] && p2 == pos + d0.len());
                    assert(enc_at(s@, p2 as int, rest));
                    assert(p2 + rest.len() == pos + enc_arr_head(a).len());
                    assert(rr == Some((p2 + rest.len()) as usize));
                }
            }
            return None;
        },
    };
    proof {
        assert forall|a: Seq<usize>|
            #[trigger] enc_at(s@, pos as int, enc_arr_head(a))
                && pos + enc_arr_head(a).len() < s@.len()
                && s@[pos + enc_arr_head(a).len()] == 93 implies
            out@ == a && p3 == pos + enc_arr_head(a).len() by {
            assert(a.len() > 0) by {
                if a.len() == 0 {
                    assert(pos < n && s@[pos as int] == 93);
                }
            }
            let d0 = dec_u64(a[0] as nat);
            let rest = enc_arr_tail(a.drop_first());
            assert(enc_arr_head(a) == d0 + rest);
            lemma_enc_at_split(s@, pos as int, d0, rest);
            assert(pos + d0.len() == s@.len() || !is_digit(s@[pos + d0.len()])) by {
                if rest.len() > 0 {
                    assert(s@.subrange(
                        pos + d0.len(),
                        pos + d0.len() + rest.len(),
                    )[0] == rest[0]);
                    assert(rest[0] == lit_comma()[0]);
                } else {
                    assert(pos + d0.len() == pos + enc_arr_head(a).len());
                }
            }
            assert(pr == Some((a[0], (pos + d0.len()) as usize)));
            assert(v == a[0] && p2 == pos + d0.len());
            assert(enc_at(s@, p2 as int, rest));
            assert(p2 + rest.len() == pos + enc_arr_head(a).len());
            assert(rr == Some((p2 + rest.len()) as usize) && out@ == mid + a.drop_first());
            assert(mid + a.drop_first() =~= a);
        }
    }
    Some((out, p3))
}

proof fn lemma_config_pieces(s: Seq<u8>, pos: int, cfg: Config)
    requires
        enc_at(s, pos, enc_config_spec(cfg)),
    ensures
        enc_at(s, pos, lit_cfg_open()),
        enc_at(s, pos + lit_cfg_open().len(), dec_u64(cfg.num_tables as nat)),
        enc_at(s, pos + lit_cfg_open().len() + dec_u64(cfg.num_tables as nat).len(), lit_cfg_factor()),
        enc_at(s, pos + lit_cfg_open().len() + dec_u64(cfg.num_tables as nat).len() + lit_cfg_factor().len(), enc_milli_spec(cfg.num_clusters_factor as nat)),
        enc_at(s, pos + lit_cfg_open().len() + dec_u64(cfg.num_tables as nat).len() + lit_cfg_factor().len() + enc_milli_spec(cfg.num_clusters_factor as nat).len(), lit_cfg_k()),
        enc_at(s, pos + lit_cfg_open().len() + dec_u64(cfg.num_tables as nat).len() + lit_cfg_factor().len() + enc_milli_spec(cfg.num_clusters_factor as nat).len() + lit_cfg_k().len(), dec_u64(cfg.k as nat)),
        enc_at(s, pos + lit_cfg_open().len() + dec_u64(cfg.num_tables as nat).len() + lit_cfg_factor().len() + enc_milli_spec(cfg.num_clusters_factor as nat).len() + lit_cfg_k().len() + dec_u64(cfg.k as nat).len(), lit_cfg_delta()),
        enc_at(s, pos + lit_cfg_open().len() + dec_u64(cfg.num_tables as nat).len() + lit_cfg_factor().len() + enc_milli_spec(cfg.num_clusters_factor as nat).len() + lit_cfg_k().len() + dec_u64(cfg.k as nat).len() + lit_cfg_delta().len(), enc_milli_spec(cfg.delta as nat)),
        enc_at(s, pos + lit_cfg_open().len() + dec_u64(cfg.num_tables as nat).len() + lit_cfg_factor().len() + enc_milli_spec(cfg.num_clusters_factor as nat).len() + lit_cfg_k().len() + dec_u64(cfg.k as nat).len() + lit_cfg_delta().len() + enc_milli_spec(cfg.delta as nat).len(), lit_cfg_name()),
        enc_at(s, pos + lit_cfg_open().len() + dec_u64(cfg.num_tables as nat).len() + lit_cfg_factor().len() + enc_milli_spec(cfg.num_clusters_factor as nat).len() + lit_cfg_k().len() + dec_u64(cfg.k as nat).len() + lit_cfg_delta().len() + enc_milli_spec(cfg.delta as nat).len() + lit_cfg_name().len(), cfg.dataset_name@),
        enc_at(s, pos + lit_cfg_open().len() + dec_u64(cfg.num_tables as nat).len() + lit_cfg_factor().len() + enc_milli_spec(cfg.num_clusters_factor as nat).len() + lit_cfg_k().len() + dec_u64(cfg.k as nat).len() + lit_cfg_delta().len() + enc_milli_spec(cfg.delta as nat).len() + lit_cfg_name().len() + cfg.dataset_name@.len(), lit_cfg_metrics()),
        enc_at(s, pos + lit_cfg_open().len() + dec_u64(cfg.num_tables as nat).len() + lit_cfg_factor().len() + enc_milli_spec(cfg.num_clusters_factor as nat).len() + lit_cfg_k().len() + dec_u64(cfg.k as nat).len() + lit_cfg_delta().len() + enc_milli_spec(cfg.delta as nat).len() + lit_cfg_name().len() + cfg.dataset_name@.len() + lit_cfg_metrics().len(), (if cfg.metrics_output is DB { lit_db() } else { lit_none() })),
        enc_at(s, pos + lit_cfg_open().len() + dec_u64(cfg.num_tables as nat).len() + lit_cfg_factor().len() + enc_milli_spec(cfg.num_clusters_factor as nat).len() + lit_cfg_k().len() + dec_u64(cfg.k as nat).len() + lit_cfg_delta().len() + enc_milli_spec(cfg.delta as nat).len() + lit_cfg_name().len() + cfg.dataset_name@.len() + lit_cfg_metrics().len() + (if cfg.metrics_output is DB { lit_db() } else { lit_none() }).len(), lit_cfg_close()),
{
    assert(enc_config_spec(cfg) == lit_cfg_open() + (dec_u64(cfg.num_tables as nat) + (lit_cfg_factor() + (enc_milli_spec(cfg.num_clusters_factor as nat) + (lit_cfg_k() + (dec_u64(cfg.k as nat) + (lit_cfg_delta() + (enc_milli_spec(cfg.delta as nat) + (lit_cfg_name() + (cfg.dataset_name@ + (lit_cfg_metrics() + ((if cfg.metrics_output is DB { lit_db() } else { lit_none() }) + (lit_cfg_close())))))))))))));
    lemma_enc_at_split(s, pos, lit_cfg_open(), dec_u64(cfg.num_tables as nat) + (lit_cfg_factor() + (enc_milli_spec(cfg.num_clusters_factor as nat) + (lit_cfg_k() + (dec_u64(cfg.k as nat) + (lit_cfg_delta() + (enc_milli_spec(cfg.delta as nat) + (lit_cfg_name() + (cfg.dataset_name@ + (lit_cfg_metrics() + ((if cfg.metrics_output is DB { lit_db() } else { lit_none() }) + (lit_cfg_close()))))))))))));
    lemma_enc_at_split(s, pos + lit_cfg_open().len(), dec_u64(cfg.num_tables as nat), lit_cfg_factor() + (enc_milli_spec(cfg.num_clusters_factor as nat) + (lit_cfg_k() + (dec_u64(cfg.k as nat) + (lit_cfg_delta() + (enc_milli_spec(cfg.delta as nat) + (lit_cfg_name() + (cfg.dataset_name@ + (lit_cfg_metrics() + ((if cfg.metrics_output is DB { lit_db() } else { lit_none() }) + (lit_cfg_close())))))))))));
    lemma_enc_at_split(s, pos + lit_cfg_open().len() + dec_u64(cfg.num_tables as nat).len(), lit_cfg_factor(), enc_milli_spec(cfg.num_clusters_factor as nat) + (lit_cfg_k() + (dec_u64(cfg.k as nat) + (lit_cfg_delta() + (enc_milli_spec(cfg.delta as nat) + (lit_cfg_name() + (cfg.dataset_name@ + (lit_cfg_metrics() + ((if cfg.metrics_output is DB { lit_db() } else { lit_none() }) + (lit_cfg_close()))))))))));
    lemma_enc_at_split(s, pos + lit_cfg_open().len() + dec_u64(cfg.num_tables as nat).len() + lit_cfg_factor().len(), enc_milli_spec(cfg.num_clusters_factor as nat), lit_cfg_k() + (dec_u64(cfg.k as nat) + (lit_cfg_delta() + (enc_milli_spec(cfg.delta as nat) + (lit_cfg_name() + (cfg.dataset_name@ + (lit_cfg_metrics() + ((if cfg.metrics_output is DB { lit_db() } else { lit_none() }) + (lit_cfg_close())))))))));
    lemma_enc_at_split(s, pos + lit_cfg_open().len() + dec_u64(cfg.num_tables as nat).len() + lit_cfg_factor().len() + enc_milli_spec(cfg.num_clusters_factor as nat).len(), lit_cfg_k(), dec_u64(cfg.k as nat) + (lit_cfg_delta() + (enc_milli_spec(cfg.delta as nat) + (lit_cfg_name() + (cfg.dataset_name@ + (lit_cfg_metrics() + ((if cfg.metrics_output is DB { lit_db() } else { lit_none() }) + (lit_cfg_close()))))))));
    lemma_enc_at_split(s, pos + lit_cfg_open().len() + dec_u64(cfg.num_tables as nat).len() + lit_cfg_factor().len() + enc_milli_spec(cfg.num_clusters_factor as nat).len() + lit_cfg_k().len(), dec_u64(cfg.k as nat), lit_cfg_delta() + (enc_milli_spec(cfg.delta as nat) + (lit_cfg_name() + (cfg.dataset_name@ + (lit_cfg_metrics() + ((if cfg.metrics_output is DB { lit_db() } else { lit_none() }) + (lit_cfg_close())))))));
    lemma_enc_at_split(s, pos + lit_cfg_open().len() + dec_u64(cfg.num_tables as nat).len() + lit_cfg_factor().len() + enc_milli_spec(cfg.num_clusters_factor as nat).len() + lit_cfg_k().len() + dec_u64(cfg.k as nat).len(), lit_cfg_delta(), enc_milli_spec(cfg.delta as nat) + (lit_cfg_name() + (cfg.dataset_name@ + (lit_cfg_metrics() + ((if cfg.metrics_output is DB { lit_db() } else { lit_none() }) + (lit_cfg_close()))))));
    lemma_enc_at_split(s, pos + lit_cfg_open().len() + dec_u64(cfg.num_tables as nat).len() + lit_cfg_factor().len() + enc_milli_spec(cfg.num_clusters_factor as nat).len() + lit_cfg_k().len() + dec_u64(cfg.k as nat).len() + lit_cfg_delta().len(), enc_milli_spec(cfg.delta as nat), lit_cfg_name() + (cfg.dataset_name@ + (lit_cfg_metrics() + ((if cfg.metrics_output is DB { lit_db() } else { lit_none() }) + (lit_cfg_close())))));
    lemma_enc_at_split(s, pos + lit_cfg_open().len() + dec_u64(cfg.num_tables as nat).len() + lit_cfg_factor().len() + enc_milli_spec(cfg.num_clusters_factor as nat).len() + lit_cfg_k().len() + dec_u64(cfg.k as nat).len() + lit_cfg_delta().len() + enc_milli_spec(cfg.delta as nat).len(), lit_cfg_name(), cfg.dataset_name@ + (lit_cfg_metrics() + ((if cfg.metrics_output is DB { lit_db() } else { lit_none() }) + (lit_cfg_close()))));
    lemma_enc_at_split(s, pos + lit_cfg_open().len() + dec_u64(cfg.num_tables as nat).len() + lit_cfg_factor().len() + enc_milli_spec(cfg.num_clusters_factor as nat).len() + lit_cfg_k().len() + dec_u64(cfg.k as nat).len() + lit_cfg_delta().len() + enc_milli_spec(cfg.delta as nat).len() + lit_cfg_name().len(), cfg.dataset_name@, lit_cfg_metrics() + ((if cfg.metrics_output is DB { lit_db() } else { lit_none() }) + (lit_cfg_close())));
    lemma_enc_at_split(s, pos + lit_cfg_open().len() + dec_u64(cfg.num_tables as nat).len() + lit_cfg_factor().len() + enc_milli_spec(cfg.num_clusters_factor as nat).len() + lit_cfg_k().len() + dec_u64(cfg.k as nat).len() + lit_cfg_delta().len() + enc_milli_spec(cfg.delta as nat).len() + lit_cfg_name().len() + cfg.dataset_name@.len(), lit_cfg_metrics(), (if cfg.metrics_output is DB { lit_db() } else { lit_none() }) + (lit_cfg_close()));
    lemma_enc_at_split(s, pos + lit_cfg_open().len() + dec_u64(cfg.num_tables as nat).len() + lit_cfg_factor().len() + enc_milli_spec(cfg.num_clusters_factor as nat).len() + lit_cfg_k().len() + dec_u64(cfg.k as nat).len() + lit_cfg_delta().len() + enc_milli_spec(cfg.delta as nat).len() + lit_cfg_name().len() + cfg.dataset_name@.len() + lit_cfg_metrics().len(), (if cfg.metrics_output is DB { lit_db() } else { lit_none() }), lit_cfg_close());
}


proof fn lemma_cluster_pieces(s: Seq<u8>, pos: int, cl: ClusterCenter)
    requires
        enc_at(s, pos, enc_cluster_spec(cl)),
    ensures
        enc_at(s, pos, lit_cl_open()),
        enc_at(s, pos + lit_cl_open().len(), dec_u64(cl.idx as nat)),
        enc_at(s, pos + lit_cl_open().len() + dec_u64(cl.idx as nat).len(), lit_cl_center()),
        enc_at(s, pos + lit_cl_open().len() + dec_u64(cl.idx as nat).len() + lit_cl_center().len(), dec_u64(cl.center_idx as nat)),
        enc_at(s, pos + lit_cl_open().len() + dec_u64(cl.idx as nat).len() + lit_cl_center().len() + dec_u64(cl.center_idx as nat).len(), lit_cl_radius()),
        enc_at(s, pos + lit_cl_open().len() + dec_u64(cl.idx as nat).len() + lit_cl_center().len() + dec_u64(cl.center_idx as nat).len() + lit_cl_radius().len(), dec_u64(cl.radius as nat)),
        enc_at(s, pos + lit_cl_open().len() + dec_u64(cl.idx as nat).len() + lit_cl_center().len() + dec_u64(cl.center_idx as nat).len() + lit_cl_radius().len() + dec_u64(cl.radius as nat).len(), lit_cl_assignment()),
        enc_at(s, pos + lit_cl_open().len() + dec_u64(cl.idx as nat).len() + lit_cl_center().len() + dec_u64(cl.center_idx as nat).len() + lit_cl_radius().len() + dec_u64(cl.radius as nat).len() + lit_cl_assignment().len(), enc_arr_head(cl.assignment@)),
        enc_at(s, pos + lit_cl_open().len() + dec_u64(cl.idx as nat).len() + lit_cl_center().len() + dec_u64(cl.center_idx as nat).len() + lit_cl_radius().len() + dec_u64(cl.radius as nat).len() + lit_cl_assignment().len() + enc_arr_head(cl.assignment@).len(), lit_cl_brute()),
        enc_at(s, pos + lit_cl_open().len() + dec_u64(cl.idx as nat).len() + lit_cl_center().len() + dec_u64(cl.center_idx as nat).len() + lit_cl_radius().len() + dec_u64(cl.radius as nat).len() + lit_cl_assignment().len() + enc_arr_head(cl.assignment@).len() + lit_cl_brute().len(), (if cl.brute_force { lit_true() } else { lit_false() })),
        enc_at(s, pos + lit_cl_open().len() + dec_u64(cl.idx as nat).len() + lit_cl_center().len() + dec_u64(cl.center_idx as nat).len() + lit_cl_radius().len() + dec_u64(cl.radius as nat).len() + lit_cl_assignment().len() + enc_arr_head(cl.assignment@).len() + lit_cl_brute().len() + (if cl.brute_force { lit_true() } else { lit_false() }).len(), lit_cl_memory()),
        enc_at(s, pos + lit_cl_open().len() + dec_u64(cl.idx as nat).len() + lit_cl_center().len() + dec_u64(cl.center_idx as nat).len() + lit_cl_radius().len() + dec_u64(cl.radius as nat).len() + lit_cl_assignment().len() + enc_arr_head(cl.assignment@).len() + lit_cl_brute().len() + (if cl.brute_force { lit_true() } else { lit_false() }).len() + lit_cl_memory().len(), dec_u64(cl.memory_used as nat)),
        enc_at(s, pos + lit_cl_open().len() + dec_u64(cl.idx as nat).len() + lit_cl_center().len() + dec_u64(cl.center_idx as nat).len() + lit_cl_radius().len() + dec_u64(cl.radius as nat).len() + lit_cl_assignment().len() + enc_arr_head(cl.assignment@).len() + lit_cl_brute().len() + (if cl.brute_force { lit_true() } else { lit_false() }).len() + lit_cl_memory().len() + dec_u64(cl.memory_used as nat).len(), lit_cl_close()),
{
    lemma_arr_prefix_is_head(cl.assignment@, cl.assignment@.len() as int);
    assert(cl.assignment@.take(cl.assignment@.len() as int) =~= cl.assignment@);
    assert(enc_cluster_spec(cl) == lit_cl_open() + (dec_u64(cl.idx as nat) + (lit_cl_center() + (dec_u64(cl.center_idx as nat) + (lit_cl_radius() + (dec_u64(cl.radius as nat) + (lit_cl_assignment() + (enc_arr_head(cl.assignment@) + (lit_cl_brute() + ((if cl.brute_force { lit_true() } else { lit_false() }) + (lit_cl_memory() + (dec_u64(cl.memory_used as nat) + (lit_cl_close())))))))))))));
    lemma_enc_at_split(s, pos, lit_cl_open(), dec_u64(cl.idx as nat) + (lit_cl_center() + (dec_u64(cl.center_idx as nat) + (lit_cl_radius() + (dec_u64(cl.radius as nat) + (lit_cl_assignment() + (enc_arr_head(cl.assignment@) + (lit_cl_brute() + ((if cl.brute_force { lit_true() } else { lit_false() }) + (lit_cl_memory() + (dec_u64(cl.memory_used as nat) + (lit_cl_close()))))))))))));
    lemma_enc_at_split(s, pos + lit_cl_open().len(), dec_u64(cl.idx as nat), lit_cl_center() + (dec_u64(cl.center_idx as nat) + (lit_cl_radius() + (dec_u64(cl.radius as nat) + (lit_cl_assignment() + (enc_arr_head(cl.assignment@) + (lit_cl_brute() + ((if cl.brute_force { lit_true() } else { lit_false() }) + (lit_cl_memory() + (dec_u64(cl.memory_used as nat) + (lit_cl_close())))))))))));
    lemma_enc_at_split(s, pos + lit_cl_open().len() + dec_u64(cl.idx as nat).len(), lit_cl_center(), dec_u64(cl.center_idx as nat) + (lit_cl_radius() + (dec_u64(cl.radius as nat) + (lit_cl_assignment() + (enc_arr_head(cl.assignment@) + (lit_cl_brute() + ((if cl.brute_force { lit_true() } else { lit_false() }) + (lit_cl_memory() + (dec_u64(cl.memory_used as nat) + (lit_cl_close()))))))))));
    lemma_enc_at_split(s, pos + lit_cl_open().len() + dec_u64(cl.idx as nat).len() + lit_cl_center().len(), dec_u64(cl.center_idx as nat), lit_cl_radius() + (dec_u64(cl.radius as nat) + (lit_cl_assignment() + (enc_arr_head(cl.assignment@) + (lit_cl_brute() + ((if cl.brute_force { lit_true() } else { lit_false() }) + (lit_cl_memory() + (dec_u64(cl.memory_used as nat) + (lit_cl_close())))))))));
    lemma_enc_at_split(s, pos + lit_cl_open().len() + dec_u64(cl.idx as nat).len() + lit_cl_center().len() + dec_u64(cl.center_idx as nat).len(), lit_cl_radius(), dec_u64(cl.radius as nat) + (lit_cl_assignment() + (enc_arr_head(cl.assignment@) + (lit_cl_brute() + ((if cl.brute_force { lit_true() } else { lit_false() }) + (lit_cl_memory() + (dec_u64(cl.memory_used as nat) + (lit_cl_close()))))))));
    lemma_enc_at_split(s, pos + lit_cl_open().len() + dec_u64(cl.idx as nat).len() + lit_cl_center().len() + dec_u64(cl.center_idx as nat).len() + lit_cl_radius().len(), dec_u64(cl.radius as nat), lit_cl_assignment() + (enc_arr_head(cl.assignment@) + (lit_cl_brute() + ((if cl.brute_force { lit_true() } else { lit_false() }) + (lit_cl_memory() + (dec_u64(cl.memory_used as nat) + (lit_cl_close())))))));
    lemma_enc_at_split(s, pos + lit_cl_open().len() + dec_u64(cl.idx as nat).len() + lit_cl_center().len() + dec_u64(cl.center_idx as nat).len() + lit_cl_radius().len() + dec_u64(cl.radius as nat).len(), lit_cl_assignment(), enc_arr_head(cl.assignment@) + (lit_cl_brute() + ((if cl.brute_force { lit_true() } else { lit_false() }) + (lit_cl_memory() + (dec_u64(cl.memory_used as nat) + (lit_cl_close()))))));
    lemma_enc_at_split(s, pos + lit_cl_open().len() + dec_u64(cl.idx as nat).len() + lit_cl_center().len() + dec_u64(cl.center_idx as nat).len() + lit_cl_radius().len() + dec_u64(cl.radius as nat).len() + lit_cl_assignment().len(), enc_arr_head(cl.assignment@), lit_cl_brute() + ((if cl.brute_force { lit_true() } else { lit_false() }) + (lit_cl_memory() + (dec_u64(cl.memory_used as nat) + (lit_cl_close())))));
    lemma_enc_at_split(s, pos + lit_cl_open().len() + dec_u64(cl.idx as nat).len() + lit_cl_center().len() + dec_u64(cl.center_idx as nat).len() + lit_cl_radius().len() + dec_u64(cl.radius as nat).len() + lit_cl_assignment().len() + enc_arr_head(cl.assignment@).len(), lit_cl_brute(), (if cl.brute_force { lit_true() } else { lit_false() }) + (lit_cl_memory() + (dec_u64(cl.memory_used as nat) + (lit_cl_close()))));
    lemma_enc_at_split(s, pos + lit_cl_open().len() + dec_u64(cl.idx as nat).len() + lit_cl_center().len() + dec_u64(cl.center_idx as nat).len() + lit_cl_radius().len() + dec_u64(cl.radius as nat).len() + lit_cl_assignment().len() + enc_arr_head(cl.assignment@).len() + lit_cl_brute().len(), (if cl.brute_force { lit_true() } else { lit_false() }), lit_cl_memory() + (dec_u64(cl.memory_used as nat) + (lit_cl_close())));
    lemma_enc_at_split(s, pos + lit_cl_open().len() + dec_u64(cl.idx as nat).len() + lit_cl_center().len() + dec_u64(cl.center_idx as nat).len() + lit_cl_radius().len() + dec_u64(cl.radius as nat).len() + lit_cl_assignment().len() + enc_arr_head(cl.assignment@).len() + lit_cl_brute().len() + (if cl.brute_force { lit_true() } else { lit_false() }).len(), lit_cl_memory(), dec_u64(cl.memory_used as nat) + (lit_cl_close()));
    lemma_enc_at_split(s, pos + lit_cl_open().len() + dec_u64(cl.idx as nat).len() + lit_cl_center().len() + dec_u64(cl.center_idx as nat).len() + lit_cl_radius().len() + dec_u64(cl.radius as nat).len() + lit_cl_assignment().len() + enc_arr_head(cl.assignment@).len() + lit_cl_brute().len() + (if cl.brute_force { lit_true() } else { lit_false() }).len() + lit_cl_memory().len(), dec_u64(cl.memory_used as nat), lit_cl_close());
}


/// The lengths and first bytes of every literal, fixed once so that
/// offset arithmetic over the container layout stays linear.
proof fn lemma_lit_facts()
    ensures
        lit_cfg_open().len() == 14,
        lit_cfg_open()[0] == 123,
        lit_cfg_factor().len() == 23,
        lit_cfg_factor()[0] == 44,
        lit_cfg_k().len() == 5,
        lit_cfg_k()[0] == 44,
        lit_cfg_delta().len() == 9,
        lit_cfg_delta()[0] == 44,
        lit_cfg_name().len() == 17,
        lit_cfg_name()[0] == 44,
        lit_cfg_metrics().len() == 20,
        lit_cfg_metrics()[0] == 34,
        lit_db().len() == 2,
        lit_db()[0] == 68,
        lit_none().len() == 4,
        lit_none()[0] == 78,
        lit_cfg_close().len() == 2,
        lit_cfg_close()[0] == 34,
        lit_cl_open().len() == 7,
        lit_cl_open()[0] == 123,
        lit_cl_center().len() == 14,
        lit_cl_center()[0] == 44,
        lit_cl_radius().len() == 10,
        lit_cl_radius()[0] == 44,
        lit_cl_assignment().len() == 15,
        lit_cl_assignment()[0] == 44,
        lit_cl_brute().len() == 16,
        lit_cl_brute()[0] == 93,
        lit_true().len() == 4,
        lit_true()[0] == 116,
        lit_false().len() == 5,
        lit_false()[0] == 102,
        lit_cl_memory().len() == 15,
        lit_cl_memory()[0] == 44,
        lit_cl_close().len() == 1,
        lit_cl_close()[0] == 125,
        lit_ct_open().len() == 10,
        lit_ct_open()[0] == 123,
        lit_ct_clusters().len() == 13,
        lit_ct_clusters()[0] == 44,
        lit_ct_close().len() == 2,
        lit_ct_close()[0] == 93,
        lit_comma().len() == 1,
        lit_comma()[0] == 44,
{
}

/// Two configurations agree on every stored field.
pub open spec fn config_eqv(a: Config, b: Config) -> bool {
    &&& a.num_tables == b.num_tables
    &&& a.num_clusters_factor == b.num_clusters_factor
    &&& a.k == b.k
    &&& a.delta == b.delta
    &&& a.dataset_name@ == b.dataset_name@
    &&& a.metrics_output == b.metrics_output
}

/// Alias of `cluster_eqv` seen from the record parser.
pub open spec fn cluster_record_eqv(a: ClusterCenter, b: ClusterCenter) -> bool {
    cluster_eqv(a, b)
}

/// Reads the JSON form of a configuration; reads back exactly what the encoder wrote.
#[verifier::rlimit(100)]
pub fn parse_config(s: &[u8], pos: usize) -> (r: Option<(Config, usize)>)
    ensures
        r matches Some(t) ==> pos <= t.1 <= s@.len(),
        forall|cfg: Config|
            #[trigger] enc_at(s@, pos as int, enc_config_spec(cfg)) && name_serializable(cfg.dataset_name@)
                ==> (r matches Some(t) && config_eqv(t.0, cfg) && t.1 == pos + enc_config_spec(cfg).len()),
{
    let slen = s.len();
    proof {
        assert(s@.len() == slen as int);
        lemma_lit_facts();
    }
    let p0 = pos;
    let mut ok: bool = true;
    let mut lv0: Vec<u8> = Vec::new();
    emit_lit_cfg_open(&mut lv0);
    proof {
        assert(lv0@ =~= lit_cfg_open());
    }
    let r0 = parse_lit(s, p0, &lv0);
    let p1 = match r0 {
        Some(pp) => pp,
        None => {
            ok = false;
            0
        },
    };
    let r1 = parse_usize(s, p1);
    let (v_num_tables, p2) = match r1 {
        Some(t) => t,
        None => {
            ok = false;
            (0, 0)
        },
    };
    let mut lv2: Vec<u8> = Vec::new();
    emit_lit_cfg_factor(&mut lv2);
    proof {
        assert(lv2@ =~= lit_cfg_factor());
    }
    let r2 = parse_lit(s, p2, &lv2);
    let p3 = match r2 {
        Some(pp) => pp,
        None => {
            ok = false;
            0
        },
    };
    let r3 = parse_milli(s, p3);
    let (v_factor_w, p4) = match r3 {
        Some(t) => t,
        None => {
            ok = false;
            (0, 0)
        },
    };
    if v_factor_w > u32::MAX as u64 {
        ok = false;
    }
    let mut lv4: Vec<u8> = Vec::new();
    emit_lit_cfg_k(&mut lv4);
    proof {
        assert(lv4@ =~= lit_cfg_k());
    }
    let r4 = parse_lit(s, p4, &lv4);
    let p5 = match r4 {
        Some(pp) => pp,
        None => {
            ok = false;
            0
        },
    };
    let r5 = parse_usize(s, p5);
    let (v_k, p6) = match r5 {
        Some(t) => t,
        None => {
            ok = false;
            (0, 0)
        },
    };
    let mut lv6: Vec<u8> = Vec::new();
    emit_lit_cfg_delta(&mut lv6);
    proof {
        assert(lv6@ =~= lit_cfg_delta());
    }
    let r6 = parse_lit(s, p6, &lv6);
    let p7 = match r6 {
        Some(pp) => pp,
        None => {
            ok = false;
            0
        },
    };
    let r7 = parse_milli(s, p7);
    let (v_delta_w, p8) = match r7 {
        Some(t) => t,
        None => {
            ok = false;
            (0, 0)
        },
    };
    if v_delta_w > u32::MAX as u64 {
        ok = false;
    }
    let mut lv8: Vec<u8> = Vec::new();
    emit_lit_cfg_name(&mut lv8);
    proof {
        assert(lv8@ =~= lit_cfg_name());
    }
    let r8 = parse_lit(s, p8, &lv8);
    let p9 = match r8 {
        Some(pp) => pp,
        None => {
            ok = false;
            0
        },
    };
    let r9 = parse_name(s, p9);
    let (v_name, p10) = match r9 {
        Some(t) => t,
        None => {
            ok = false;
            (Vec::new(), 0)
        },
    };
    let mut lv10: Vec<u8> = Vec::new();
    emit_lit_cfg_metrics(&mut lv10);
    proof {
        assert(lv10@ =~= lit_cfg_metrics());
    }
    let r10 = parse_lit(s, p10, &lv10);
    let p11 = match r10 {
        Some(pp) => pp,
        None => {
            ok = false;
            0
        },
    };
    let mut lvdb11: Vec<u8> = Vec::new();
    emit_lit_db(&mut lvdb11);
    proof {
        assert(lvdb11@ =~= lit_db());
    }
    let mut lvno11: Vec<u8> = Vec::new();
    emit_lit_none(&mut lvno11);
    proof {
        assert(lvno11@ =~= lit_none());
    }
    let rdb11 = parse_lit(s, p11, &lvdb11);
    let rno11 = parse_lit(s, p11, &lvno11);
    let (v_mo, p12) = match rdb11 {
        Some(pp) => (MetricsOutput::DB, pp),
        None => match rno11 {
            Some(pp) => (MetricsOutput::NoOutput, pp),
            None => {
                ok = false;
                (MetricsOutput::DB, 0)
            },
        },
    };
    let mut lv12: Vec<u8> = Vec::new();
    emit_lit_cfg_close(&mut lv12);
    proof {
        assert(lv12@ =~= lit_cfg_close());
    }
    let r12 = parse_lit(s, p12, &lv12);
    let p13 = match r12 {
        Some(pp) => pp,
        None => {
            ok = false;
            0
        },
    };
    let out = Config {
        num_tables: v_num_tables,
        num_clusters_factor: v_factor_w as u32,
        k: v_k,
        delta: v_delta_w as u32,
        dataset_name: v_name,
        metrics_output: v_mo,
    };
    if !ok {
        proof {
            assert forall|cfg: Config|
                #[trigger] enc_at(s@, pos as int, enc_config_spec(cfg)) && name_serializable(cfg.dataset_name@) implies false by {
            lemma_config_pieces(s@, pos as int, cfg);
                assert(enc_at(s@, p0 as int, lit_cfg_open()));
                assert(r0 == Some((p0 + lit_cfg_open().len()) as usize));
                assert(p1 == p0 + lit_cfg_open().len());
                assert(enc_at(s@, p1 as int, dec_u64(cfg.num_tables as nat)));
                assert(enc_at(s@, p1 + dec_u64(cfg.num_tables as nat).len(), lit_cfg_factor()));
                assert(s@.subrange(p1 + dec_u64(cfg.num_tables as nat).len(), p1 + dec_u64(cfg.num_tables as nat).len() + lit_cfg_factor().len())[0] == lit_cfg_factor()[0]);
                assert(!is_digit(s@[p1 + dec_u64(cfg.num_tables as nat).len()]));
                assert(r1 == Some((cfg.num_tables, (p1 + dec_u64(cfg.num_tables as nat).len()) as usize)));
                assert(v_num_tables == cfg.num_tables && p2 == p1 + dec_u64(cfg.num_tables as nat).len());
                assert(enc_at(s@, p2 as int, lit_cfg_factor()));
                assert(r2 == Some((p2 + lit_cfg_factor().len()) as usize));
                assert(p3 == p2 + lit_cfg_factor().len());
                assert(enc_at(s@, p3 as int, enc_milli_spec(cfg.num_clusters_factor as nat)));
                assert(enc_at(s@, p3 + enc_milli_spec(cfg.num_clusters_factor as nat).len(), lit_cfg_k()));
                assert(s@.subrange(p3 + enc_milli_spec(cfg.num_clusters_factor as nat).len(), p3 + enc_milli_spec(cfg.num_clusters_factor as nat).len() + lit_cfg_k().len())[0] == lit_cfg_k()[0]);
                assert(!is_digit(s@[p3 + enc_milli_spec(cfg.num_clusters_factor as nat).len()]));
                assert(cfg.num_clusters_factor <= u32::MAX);
                assert(r3 == Some((cfg.num_clusters_factor as u64, (p3 + enc_milli_spec(cfg.num_clusters_factor as nat).len()) as usize)));
                assert(v_factor_w == cfg.num_clusters_factor as u64 && p4 == p3 + enc_milli_spec(cfg.num_clusters_factor as nat).len());
                assert(enc_at(s@, p4 as int, lit_cfg_k()));
                assert(r4 == Some((p4 + lit_cfg_k().len()) as usize));
                assert(p5 == p4 + lit_cfg_k().len());
                assert(enc_at(s@, p5 as int, dec_u64(cfg.k as nat)));
                assert(enc_at(s@, p5 + dec_u64(cfg.k as nat).len(), lit_cfg_delta()));
                assert(s@.subrange(p5 + dec_u64(cfg.k as nat).len(), p5 + dec_u64(cfg.k as nat).len() + lit_cfg_delta().len())[0] == lit_cfg_delta()[0]);
                assert(!is_digit(s@[p5 + dec_u64(cfg.k as nat).len()]));
                assert(r5 == Some((cfg.k, (p5 + dec_u64(cfg.k as nat).len()) as usize)));
                assert(v_k == cfg.k && p6 == p5 + dec_u64(cfg.k as nat).len());
                assert(enc_at(s@, p6 as int, lit_cfg_delta()));
                assert(r6 == Some((p6 + lit_cfg_delta().len()) as usize));
                assert(p7 == p6 + lit_cfg_delta().len());
                assert(enc_at(s@, p7 as int, enc_milli_spec(cfg.delta as nat)));
                assert(enc_at(s@, p7 + enc_milli_spec(cfg.delta as nat).len(), lit_cfg_name()));
                assert(s@.subrange(p7 + enc_milli_spec(cfg.delta as nat).len(), p7 + enc_milli_spec(cfg.delta as nat).len() + lit_cfg_name().len())[0] == lit_cfg_name()[0]);
                assert(!is_digit(s@[p7 + enc_milli_spec(cfg.delta as nat).len()]));
                assert(cfg.delta <= u32::MAX);
                assert(r7 == Some((cfg.delta as u64, (p7 + enc_milli_spec(cfg.delta as nat).len()) as usize)));
                assert(v_delta_w == cfg.delta as u64 && p8 == p7 + enc_milli_spec(cfg.delta as nat).len());
                assert(enc_at(s@, p8 as int, lit_cfg_name()));
                assert(r8 == Some((p8 + lit_cfg_name().len()) as usize));
                assert(p9 == p8 + lit_cfg_name().len());
                assert(enc_at(s@, p9 as int, cfg.dataset_name@));
                assert(enc_at(s@, p9 + cfg.dataset_name@.len(), lit_cfg_metrics()));
                assert(s@.subrange(p9 + cfg.dataset_name@.len(), p9 + cfg.dataset_name@.len() + lit_cfg_metrics().len())[0] == lit_cfg_metrics()[0]);
                assert(s@[p9 + cfg.dataset_name@.len()] == 34);
                assert(p9 + cfg.dataset_name@.len() < s@.len());
                assert(r9 matches Some(t2) && t2.0@ == cfg.dataset_name@ && t2.1 == p9 + cfg.dataset_name@.len());
                assert(v_name@ == cfg.dataset_name@ && p10 == p9 + cfg.dataset_name@.len());
                assert(enc_at(s@, p10 as int, lit_cfg_metrics()));
                assert(r10 == Some((p10 + lit_cfg_metrics().len()) as usize));
                assert(p11 == p10 + lit_cfg_metrics().len());
                assert(enc_at(s@, p11 as int, (if cfg.metrics_output is DB { lit_db() } else { lit_none() })));
                if cfg.metrics_output is DB {
                    assert(enc_at(s@, p11 as int, lit_db()));
                    assert(rdb11 == Some((p11 + lit_db().len()) as usize));
                } else {
                    assert(enc_at(s@, p11 as int, lit_none()));
                    assert(s@.subrange(p11 as int, p11 + lit_none().len())[0] == lit_none()[0]);
                    if rdb11 matches Some(pp) {
                        assert(s@.subrange(p11 as int, p11 + lvdb11@.len())[0] == lvdb11@[0]);
                        assert(false);
                    }
                    assert(rno11 == Some((p11 + lit_none().len()) as usize));
                }
                assert(v_mo == cfg.metrics_output && p12 == p11 + (if cfg.metrics_output is DB { lit_db() } else { lit_none() }).len());
                assert(enc_at(s@, p12 as int, lit_cfg_close()));
                assert(r12 == Some((p12 + lit_cfg_close().len()) as usize));
                assert(p13 == p12 + lit_cfg_close().len());
            }
        }
        return None;
    }
    proof {
        assert forall|cfg: Config|
            #[trigger] enc_at(s@, pos as int, enc_config_spec(cfg)) && name_serializable(cfg.dataset_name@) implies
            config_eqv(out, cfg) && p13 == pos + enc_config_spec(cfg).len() by {
            lemma_config_pieces(s@, pos as int, cfg);
            assert(enc_at(s@, p0 as int, lit_cfg_open()));
            assert(r0 == Some((p0 + lit_cfg_open().len()) as usize));
            assert(p1 == p0 + lit_cfg_open().len());
            assert(enc_at(s@, p1 as int, dec_u64(cfg.num_tables as nat)));
            assert(enc_at(s@, p1 + dec_u64(cfg.num_tables as nat).len(), lit_cfg_factor()));
            assert(s@.subrange(p1 + dec_u64(cfg.num_tables as nat).len(), p1 + dec_u64(cfg.num_tables as nat).len() + lit_cfg_factor().len())[0] == lit_cfg_factor()[0]);
            assert(!is_digit(s@[p1 + dec_u64(cfg.num_tables as nat).len()]));
            assert(r1 == Some((cfg.num_tables, (p1 + dec_u64(cfg.num_tables as nat).len()) as usize)));
            assert(v_num_tables == cfg.num_tables && p2 == p1 + dec_u64(cfg.num_tables as nat).len());
            assert(enc_at(s@, p2 as int, lit_cfg_factor()));
            assert(r2 == Some((p2 + lit_cfg_factor().len()) as usize));
            assert(p3 == p2 + lit_cfg_factor().len());
            assert(enc_at(s@, p3 as int, enc_milli_spec(cfg.num_clusters_factor as nat)));
            assert(enc_at(s@, p3 + enc_milli_spec(cfg.num_clusters_factor as nat).len(), lit_cfg_k()));
            assert(s@.subrange(p3 + enc_milli_spec(cfg.num_clusters_factor as nat).len(), p3 + enc_milli_spec(cfg.num_clusters_factor as nat).len() + lit_cfg_k().len())[0] == lit_cfg_k()[0]);
            assert(!is_digit(s@[p3 + enc_milli_spec(cfg.num_clusters_factor as nat).len()]));
            assert(cfg.num_clusters_factor <= u32::MAX);
            assert(r3 == Some((cfg.num_clusters_factor as u64, (p3 + enc_milli_spec(cfg.num_clusters_factor as nat).len()) as usize)));
            assert(v_factor_w == cfg.num_clusters_factor as u64 && p4 == p3 + enc_milli_spec(cfg.num_clusters_factor as nat).len());
            assert(enc_at(s@, p4 as int, lit_cfg_k()));
            assert(r4 == Some((p4 + lit_cfg_k().len()) as usize));
            assert(p5 == p4 + lit_cfg_k().len());
            assert(enc_at(s@, p5 as int, dec_u64(cfg.k as nat)));
            assert(enc_at(s@, p5 + dec_u64(cfg.k as nat).len(), lit_cfg_delta()));
            assert(s@.subrange(p5 + dec_u64(cfg.k as nat).len(), p5 + dec_u64(cfg.k as nat).len() + lit_cfg_delta().len())[0] == lit_cfg_delta()[0]);
            assert(!is_digit(s@[p5 + dec_u64(cfg.k as nat).len()]));
            assert(r5 == Some((cfg.k, (p5 + dec_u64(cfg.k as nat).len()) as usize)));
            assert(v_k == cfg.k && p6 == p5 + dec_u64(cfg.k as nat).len());
            assert(enc_at(s@, p6 as int, lit_cfg_delta()));
            assert(r6 == Some((p6 + lit_cfg_delta().len()) as usize));
            assert(p7 == p6 + lit_cfg_delta().len());
            assert(enc_at(s@, p7 as int, enc_milli_spec(cfg.delta as nat)));
            assert(enc_at(s@, p7 + enc_milli_spec(cfg.delta as nat).len(), lit_cfg_name()));
            assert(s@.subrange(p7 + enc_milli_spec(cfg.delta as nat).len(), p7 + enc_milli_spec(cfg.delta as nat).len() + lit_cfg_name().len())[0] == lit_cfg_name()[0]);
            assert(!is_digit(s@[p7 + enc_milli_spec(cfg.delta as nat).len()]));
            assert(cfg.delta <= u32::MAX);
            assert(r7 == Some((cfg.delta as u64, (p7 + enc_milli_spec(cfg.delta as nat).len()) as usize)));
            assert(v_delta_w == cfg.delta as u64 && p8 == p7 + enc_milli_spec(cfg.delta as nat).len());
            assert(enc_at(s@, p8 as int, lit_cfg_name()));
            assert(r8 == Some((p8 + lit_cfg_name().len()) as usize));
            assert(p9 == p8 + lit_cfg_name().len());
            assert(enc_at(s@, p9 as int, cfg.dataset_name@));
            assert(enc_at(s@, p9 + cfg.dataset_name@.len(), lit_cfg_metrics()));
            assert(s@.subrange(p9 + cfg.dataset_name@.len(), p9 + cfg.dataset_name@.len() + lit_cfg_metrics().len())[0] == lit_cfg_metrics()[0]);
            assert(s@[p9 + cfg.dataset_name@.len()] == 34);
            assert(p9 + cfg.dataset_name@.len() < s@.len());
            assert(r9 matches Some(t2) && t2.0@ == cfg.dataset_name@ && t2.1 == p9 + cfg.dataset_name@.len());
            assert(v_name@ == cfg.dataset_name@ && p10 == p9 + cfg.dataset_name@.len());
            assert(enc_at(s@, p10 as int, lit_cfg_metrics()));
            assert(r10 == Some((p10 + lit_cfg_metrics().len()) as usize));
            assert(p11 == p10 + lit_cfg_metrics().len());
            assert(enc_at(s@, p11 as int, (if cfg.metrics_output is DB { lit_db() } else { lit_none() })));
            if cfg.metrics_output is DB {
                assert(enc_at(s@, p11 as int, lit_db()));
                assert(rdb11 == Some((p11 + lit_db().len()) as usize));
            } else {
                assert(enc_at(s@, p11 as int, lit_none()));
                assert(s@.subrange(p11 as int, p11 + lit_none().len())[0] == lit_none()[0]);
                if rdb11 matches Some(pp) {
                    assert(s@.subrange(p11 as int, p11 + lvdb11@.len())[0] == lvdb11@[0]);
                    assert(false);
                }
                assert(rno11 == Some((p11 + lit_none().len()) as usize));
            }
            assert(v_mo == cfg.metrics_output && p12 == p11 + (if cfg.metrics_output is DB { lit_db() } else { lit_none() }).len());
            assert(enc_at(s@, p12 as int, lit_cfg_close()));
            assert(r12 == Some((p12 + lit_cfg_close().len()) as usize));
            assert(p13 == p12 + lit_cfg_close().len());
            assert(enc_config_spec(cfg).len() == lit_cfg_open().len() + dec_u64(cfg.num_tables as nat).len() + lit_cfg_factor().len() + enc_milli_spec(cfg.num_clusters_factor as nat).len() + lit_cfg_k().len() + dec_u64(cfg.k as nat).len() + lit_cfg_delta().len() + enc_milli_spec(cfg.delta as nat).len() + lit_cfg_name().len() + cfg.dataset_name@.len() + lit_cfg_metrics().len() + (if cfg.metrics_output is DB { lit_db() } else { lit_none() }).len() + lit_cfg_close().len());
        }
    }
    Some((out, p13))
}

/// Reads the JSON form of one cluster record; reads back exactly what the encoder wrote.
#[verifier::rlimit(100)]
pub fn parse_cluster(s: &[u8], pos: usize) -> (r: Option<(ClusterCenter, usize)>)
    ensures
        r matches Some(t) ==> pos <= t.1 <= s@.len(),
        forall|cl: ClusterCenter|
            #[trigger] enc_at(s@, pos as int, enc_cluster_spec(cl))
                ==> (r matches Some(t) && cluster_record_eqv(t.0, cl) && t.1 == pos + enc_cluster_spec(cl).len()),
{
    let slen = s.len();
    proof {
        assert(s@.len() == slen as int);
        lemma_lit_facts();
    }
    let p0 = pos;
    let mut ok: bool = true;
    let mut lv0: Vec<u8> = Vec::new();
    emit_lit_cl_open(&mut lv0);
    proof {
        assert(lv0@ =~= lit_cl_open());
    }
    let r0 = parse_lit(s, p0, &lv0);
    let p1 = match r0 {
        Some(pp) => pp,
        None => {
            ok = false;
            0
        },
    };
    let r1 = parse_usize(s, p1);
    let (v_idx, p2) = match r1 {
        Some(t) => t,
        None => {
            ok = false;
            (0, 0)
        },
    };
    let mut lv2: Vec<u8> = Vec::new();
    emit_lit_cl_center(&mut lv2);
    proof {
        assert(lv2@ =~= lit_cl_center());
    }
    let r2 = parse_lit(s, p2, &lv2);
    let p3 = match r2 {
        Some(pp) => pp,
        None => {
            ok = false;
            0
        },
    };
    let r3 = parse_usize(s, p3);
    let (v_center, p4) = match r3 {
        Some(t) => t,
        None => {
            ok = false;
            (0, 0)
        },
    };
    let mut lv4: Vec<u8> = Vec::new();
    emit_lit_cl_radius(&mut lv4);
    proof {
        assert(lv4@ =~= lit_cl_radius());
    }
    let r4 = parse_lit(s, p4, &lv4);
    let p5 = match r4 {
        Some(pp) => pp,
        None => {
            ok = false;
            0
        },
    };
    let r5 = parse_u64(s, p5);
    let (v_radius, p6) = match r5 {
        Some(t) => t,
        None => {
            ok = false;
            (0, 0)
        },
    };
    let mut lv6: Vec<u8> = Vec::new();
    emit_lit_cl_assignment(&mut lv6);
    proof {
        assert(lv6@ =~= lit_cl_assignment());
    }
    let r6 = parse_lit(s, p6, &lv6);
    let p7 = match r6 {
        Some(pp) => pp,
        None => {
            ok = false;
            0
        },
    };
    let r7 = parse_usize_array(s, p7);
    let (v_assignment, p8) = match r7 {
        Some(t) => t,
        None => {
            ok = false;
            (Vec::new(), 0)
        },
    };
    let mut lv8: Vec<u8> = Vec::new();
    emit_lit_cl_brute(&mut lv8);
    proof {
        assert(lv8@ =~= lit_cl_brute());
    }
    let r8 = parse_lit(s, p8, &lv8);
    let p9 = match r8 {
        Some(pp) => pp,
        None => {
            ok = false;
            0
        },
    };
    let mut lvdb9: Vec<u8> = Vec::new();
    emit_lit_true(&mut lvdb9);
    proof {
        assert(lvdb9@ =~= lit_true());
    }
    let mut lvno9: Vec<u8> = Vec::new();
    emit_lit_false(&mut lvno9);
    proof {
        assert(lvno9@ =~= lit_false());
    }
    let rdb9 = parse_lit(s, p9, &lvdb9);
    let rno9 = parse_lit(s, p9, &lvno9);
    let (v_brute, p10) = match rdb9 {
        Some(pp) => (true, pp),
        None => match rno9 {
            Some(pp) => (false, pp),
            None => {
                ok = false;
                (true, 0)
            },
        },
    };
    let mut lv10: Vec<u8> = Vec::new();
    emit_lit_cl_memory(&mut lv10);
    proof {
        assert(lv10@ =~= lit_cl_memory());
    }
    let r10 = parse_lit(s, p10, &lv10);
    let p11 = match r10 {
        Some(pp) => pp,
        None => {
            ok = false;
            0
        },
    };
    let r11 = parse_usize(s, p11);
    let (v_memory, p12) = match r11 {
        Some(t) => t,
        None => {
            ok = false;
            (0, 0)
        },
    };
    let mut lv12: Vec<u8> = Vec::new();
    emit_lit_cl_close(&mut lv12);
    proof {
        assert(lv12@ =~= lit_cl_close());
    }
    let r12 = parse_lit(s, p12, &lv12);
    let p13 = match r12 {
        Some(pp) => pp,
        None => {
            ok = false;
            0
        },
    };
    let out = ClusterCenter {
        idx: v_idx,
        center_idx: v_center,
        radius: v_radius,
        assignment: v_assignment,
        brute_force: v_brute,
        memory_used: v_memory,
    };
    if !ok {
        proof {
            assert forall|cl: ClusterCenter|
                #[trigger] enc_at(s@, pos as int, enc_cluster_spec(cl)) implies false by {
            lemma_cluster_pieces(s@, pos as int, cl);
                assert(enc_at(s@, p0 as int, lit_cl_open()));
                assert(r0 == Some((p0 + lit_cl_open().len()) as usize));
                assert(p1 == p0 + lit_cl_open().len());
                assert(enc_at(s@, p1 as int, dec_u64(cl.idx as nat)));
                assert(enc_at(s@, p1 + dec_u64(cl.idx as nat).len(), lit_cl_center()));
                assert(s@.subrange(p1 + dec_u64(cl.idx as nat).len(), p1 + dec_u64(cl.idx as nat).len() + lit_cl_center().len())[0] == lit_cl_center()[0]);
                assert(!is_digit(s@[p1 + dec_u64(cl.idx as nat).len()]));
                assert(r1 == Some((cl.idx, (p1 + dec_u64(cl.idx as nat).len()) as usize)));
                assert(v_idx == cl.idx && p2 == p1 + dec_u64(cl.idx as nat).len());
                assert(enc_at(s@, p2 as int, lit_cl_center()));
                assert(r2 == Some((p2 + lit_cl_center().len()) as usize));
                assert(p3 == p2 + lit_cl_center().len());
                assert(enc_at(s@, p3 as int, dec_u64(cl.center_idx as nat)));
                assert(enc_at(s@, p3 + dec_u64(cl.center_idx as nat).len(), lit_cl_radius()));
                assert(s@.subrange(p3 + dec_u64(cl.center_idx as nat).len(), p3 + dec_u64(cl.center_idx as nat).len() + lit_cl_radius().len())[0] == lit_cl_radius()[0]);
                assert(!is_digit(s@[p3 + dec_u64(cl.center_idx as nat).len()]));
                assert(r3 == Some((cl.center_idx, (p3 + dec_u64(cl.center_idx as nat).len()) as usize)));
                assert(v_center == cl.center_idx && p4 == p3 + dec_u64(cl.center_idx as nat).len());
                assert(enc_at(s@, p4 as int, lit_cl_radius()));
                assert(r4 == Some((p4 + lit_cl_radius().len()) as usize));
                assert(p5 == p4 + lit_cl_radius().len());
                assert(enc_at(s@, p5 as int, dec_u64(cl.radius as nat)));
                assert(enc_at(s@, p5 + dec_u64(cl.radius as nat).len(), lit_cl_assignment()));
                assert(s@.subrange(p5 + dec_u64(cl.radius as nat).len(), p5 + dec_u64(cl.radius as nat).len() + lit_cl_assignment().len())[0] == lit_cl_assignment()[0]);
                assert(!is_digit(s@[p5 + dec_u64(cl.radius as nat).len()]));
                assert(r5 == Some((cl.radius, (p5 + dec_u64(cl.radius as nat).len()) as usize)));
                assert(v_radius == cl.radius && p6 == p5 + dec_u64(cl.radius as nat).len());
                assert(enc_at(s@, p6 as int, lit_cl_assignment()));
                assert(r6 == Some((p6 + lit_cl_assignment().len()) as usize));
                assert(p7 == p6 + lit_cl_assignment().len());
                assert(enc_at(s@, p7 as int, enc_arr_head(cl.assignment@)));
                assert(enc_at(s@, p7 + enc_arr_head(cl.assignment@).len(), lit_cl_brute()));
                assert(s@.subrange(p7 + enc_arr_head(cl.assignment@).len(), p7 + enc_arr_head(cl.assignment@).len() + lit_cl_brute().len())[0] == lit_cl_brute()[0]);
                assert(s@[p7 + enc_arr_head(cl.assignment@).len()] == 93);
                assert(p7 + enc_arr_head(cl.assignment@).len() < s@.len());
                assert(r7 matches Some(t2) && t2.0@ == cl.assignment@ && t2.1 == p7 + enc_arr_head(cl.assignment@).len());
                assert(v_assignment@ == cl.assignment@ && p8 == p7 + enc_arr_head(cl.assignment@).len());
                assert(enc_at(s@, p8 as int, lit_cl_brute()));
                assert(r8 == Some((p8 + lit_cl_brute().len()) as usize));
                assert(p9 == p8 + lit_cl_brute().len());
                assert(enc_at(s@, p9 as int, (if cl.brute_force { lit_true() } else { lit_false() })));
                if cl.brute_force {
                    assert(enc_at(s@, p9 as int, lit_true()));
                    assert(rdb9 == Some((p9 + lit_true().len()) as usize));
                } else {
                    assert(enc_at(s@, p9 as int, lit_false()));
                    assert(s@.subrange(p9 as int, p9 + lit_false().len())[0] == lit_false()[0]);
                    if rdb9 matches Some(pp) {
                        assert(s@.subrange(p9 as int, p9 + lvdb9@.len())[0] == lvdb9@[0]);
                        assert(false);
                    }
                    assert(rno9 == Some((p9 + lit_false().len()) as usize));
                }
                assert(v_brute == cl.brute_force && p10 == p9 + (if cl.brute_force { lit_true() } else { lit_false() }).len());
                assert(enc_at(s@, p10 as int, lit_cl_memory()));
                assert(r10 == Some((p10 + lit_cl_memory().len()) as usize));
                assert(p11 == p10 + lit_cl_memory().len());
                assert(enc_at(s@, p11 as int, dec_u64(cl.memory_used as nat)));
                assert(enc_at(s@, p11 + dec_u64(cl.memory_used as nat).len(), lit_cl_close()));
                assert(s@.subrange(p11 + dec_u64(cl.memory_used as nat).len(), p11 + dec_u64(cl.memory_used as nat).len() + lit_cl_close().len())[0] == lit_cl_close()[0]);
                assert(!is_digit(s@[p11 + dec_u64(cl.memory_used as nat).len()]));
                assert(r11 == Some((cl.memory_used, (p11 + dec_u64(cl.memory_used as nat).len()) as usize)));
                assert(v_memory == cl.memory_used && p12 == p11 + dec_u64(cl.memory_used as nat).len());
                assert(enc_at(s@, p12 as int, lit_cl_close()));
                assert(r12 == Some((p12 + lit_cl_close().len()) as usize));
                assert(p13 == p12 + lit_cl_close().len());
            }
        }
        return None;
    }
    proof {
        assert forall|cl: ClusterCenter|
            #[trigger] enc_at(s@, pos as int, enc_cluster_spec(cl)) implies
            cluster_record_eqv(out, cl) && p13 == pos + enc_cluster_spec(cl).len() by {
            lemma_cluster_pieces(s@, pos as int, cl);
            assert(enc_at(s@, p0 as int, lit_cl_open()));
            assert(r0 == Some((p0 + lit_cl_open().len()) as usize));
            assert(p1 == p0 + lit_cl_open().len());
            assert(enc_at(s@, p1 as int, dec_u64(cl.idx as nat)));
            assert(enc_at(s@, p1 + dec_u64(cl.idx as nat).len(), lit_cl_center()));
            assert(s@.subrange(p1 + dec_u64(cl.idx as nat).len(), p1 + dec_u64(cl.idx as nat).len() + lit_cl_center().len())[0] == lit_cl_center()[0]);
            assert(!is_digit(s@[p1 + dec_u64(cl.idx as nat).len()]));
            assert(r1 == Some((cl.idx, (p1 + dec_u64(cl.idx as nat).len()) as usize)));
            assert(v_idx == cl.idx && p2 == p1 + dec_u64(cl.idx as nat).len());
            assert(enc_at(s@, p2 as int, lit_cl_center()));
            assert(r2 == Some((p2 + lit_cl_center().len()) as usize));
            assert(p3 == p2 + lit_cl_center().len());
            assert(enc_at(s@, p3 as int, dec_u64(cl.center_idx as nat)));
            assert(enc_at(s@, p3 + dec_u64(cl.center_idx as nat).len(), lit_cl_radius()));
            assert(s@.subrange(p3 + dec_u64(cl.center_idx as nat).len(), p3 + dec_u64(cl.center_idx as nat).len() + lit_cl_radius().len())[0] == lit_cl_radius()[0]);
            assert(!is_digit(s@[p3 + dec_u64(cl.center_idx as nat).len()]));
            assert(r3 == Some((cl.center_idx, (p3 + dec_u64(cl.center_idx as nat).len()) as usize)));
            assert(v_center == cl.center_idx && p4 == p3 + dec_u64(cl.center_idx as nat).len());
            assert(enc_at(s@, p4 as int, lit_cl_radius()));
            assert(r4 == Some((p4 + lit_cl_radius().len()) as usize));
            assert(p5 == p4 + lit_cl_radius().len());
            assert(enc_at(s@, p5 as int, dec_u64(cl.radius as nat)));
            assert(enc_at(s@, p5 + dec_u64(cl.radius as nat).len(), lit_cl_assignment()));
            assert(s@.subrange(p5 + dec_u64(cl.radius as nat).len(), p5 + dec_u64(cl.radius as nat).len() + lit_cl_assignment().len())[0] == lit_cl_assignment()[0]);
            assert(!is_digit(s@[p5 + dec_u64(cl.radius as nat).len()]));
            assert(r5 == Some((cl.radius, (p5 + dec_u64(cl.radius as nat).len()) as usize)));
            assert(v_radius == cl.radius && p6 == p5 + dec_u64(cl.radius as nat).len());
            assert(enc_at(s@, p6 as int, lit_cl_assignment()));
            assert(r6 == Some((p6 + lit_cl_assignment().len()) as usize));
            assert(p7 == p6 + lit_cl_assignment().len());
            assert(enc_at(s@, p7 as int, enc_arr_head(cl.assignment@)));
            assert(enc_at(s@, p7 + enc_arr_head(cl.assignment@).len(), lit_cl_brute()));
            assert(s@.subrange(p7 + enc_arr_head(cl.assignment@).len(), p7 + enc_arr_head(cl.assignment@).len() + lit_cl_brute().len())[0] == lit_cl_brute()[0]);
            assert(s@[p7 + enc_arr_head(cl.assignment@).len()] == 93);
            assert(p7 + enc_arr_head(cl.assignment@).len() < s@.len());
            assert(r7 matches Some(t2) && t2.0@ == cl.assignment@ && t2.1 == p7 + enc_arr_head(cl.assignment@).len());
            assert(v_assignment@ == cl.assignment@ && p8 == p7 + enc_arr_head(cl.assignment@).len());
            assert(enc_at(s@, p8 as int, lit_cl_brute()));
            assert(r8 == Some((p8 + lit_cl_brute().len()) as usize));
            assert(p9 == p8 + lit_cl_brute().len());
            assert(enc_at(s@, p9 as int, (if cl.brute_force { lit_true() } else { lit_false() })));
            if cl.brute_force {
                assert(enc_at(s@, p9 as int, lit_true()));
                assert(rdb9 == Some((p9 + lit_true().len()) as usize));
            } else {
                assert(enc_at(s@, p9 as int, lit_false()));
                assert(s@.subrange(p9 as int, p9 + lit_false().len())[0] == lit_false()[0]);
                if rdb9 matches Some(pp) {
                    assert(s@.subrange(p9 as int, p9 + lvdb9@.len())[0] == lvdb9@[0]);
                    assert(false);
                }
                assert(rno9 == Some((p9 + lit_false().len()) as usize));
            }
            assert(v_brute == cl.brute_force && p10 == p9 + (if cl.brute_force { lit_true() } else { lit_false() }).len());
            assert(enc_at(s@, p10 as int, lit_cl_memory()));
            assert(r10 == Some((p10 + lit_cl_memory().len()) as usize));
            assert(p11 == p10 + lit_cl_memory().len());
            assert(enc_at(s@, p11 as int, dec_u64(cl.memory_used as nat)));
            assert(enc_at(s@, p11 + dec_u64(cl.memory_used as nat).len(), lit_cl_close()));
            assert(s@.subrange(p11 + dec_u64(cl.memory_used as nat).len(), p11 + dec_u64(cl.memory_used as nat).len() + lit_cl_close().len())[0] == lit_cl_close()[0]);
            assert(!is_digit(s@[p11 + dec_u64(cl.memory_used as nat).len()]));
            assert(r11 == Some((cl.memory_used, (p11 + dec_u64(cl.memory_used as nat).len()) as usize)));
            assert(v_memory == cl.memory_used && p12 == p11 + dec_u64(cl.memory_used as nat).len());
            assert(enc_at(s@, p12 as int, lit_cl_close()));
            assert(r12 == Some((p12 + lit_cl_close().len()) as usize));
            assert(p13 == p12 + lit_cl_close().len());
            lemma_arr_prefix_is_head(cl.assignment@, cl.assignment@.len() as int);
            assert(cl.assignment@.take(cl.assignment@.len() as int) =~= cl.assignment@);
            assert(enc_cluster_spec(cl).len() == lit_cl_open().len() + dec_u64(cl.idx as nat).len() + lit_cl_center().len() + dec_u64(cl.center_idx as nat).len() + lit_cl_radius().len() + dec_u64(cl.radius as nat).len() + lit_cl_assignment().len() + enc_arr_head(cl.assignment@).len() + lit_cl_brute().len() + (if cl.brute_force { lit_true() } else { lit_false() }).len() + lit_cl_memory().len() + dec_u64(cl.memory_used as nat).len() + lit_cl_close().len());
        }
    }
    Some((out, p13))
}

/// Reads the comma-separated continuation of the cluster array into
/// `out`, stopping before `]`; reads back records equal field for field to
/// what the encoder wrote.
fn parse_cls_tail(s: &[u8], pos: usize, out: &mut Vec<ClusterCenter>) -> (r: Option<usize>)
    ensures
        r matches Some(p) ==> pos <= p <= s@.len(),
        forall|x: Seq<ClusterCenter>|
            #[trigger] enc_at(s@, pos as int, enc_cls_tail(x))
                && pos + enc_cls_tail(x).len() < s@.len()
                && s@[pos + enc_cls_tail(x).len()] == 93
                ==> (r == Some((pos + enc_cls_tail(x).len()) as usize)
                    && final(out)@.len() == old(out)@.len() + x.len()
                    && (forall|i: int| 0 <= i < old(out)@.len()
                        ==> final(out)@[i] == old(out)@[i])
                    && (forall|i: int| 0 <= i < x.len()
                        ==> cluster_eqv(final(out)@[old(out)@.len() + i], x[i]))),
    decreases s@.len() - pos,
{
    let n = s.len();
    if pos < n && s[pos] == 44 {
        let pr = parse_cluster(s, pos + 1);
        let (cl0, p2) = match pr {
            Some(t) => t,
            None => {
                proof {
                    assert forall|x: Seq<ClusterCenter>|
                        #[trigger] enc_at(s@, pos as int, enc_cls_tail(x))
                            && pos + enc_cls_tail(x).len() < s@.len()
                            && s@[pos + enc_cls_tail(x).len()] == 93 implies false by {
                        assert(x.len() > 0) by {
                            if x.len() == 0 {
                                assert(s@[pos as int] == 93);
                            }
                        }
                        let e0 = enc_cluster_spec(x[0]);
                        let rest = enc_cls_tail(x.drop_first());
                        assert(enc_cls_tail(x) == lit_comma() + (e0 + rest));
                        lemma_enc_at_split(s@, pos as int, lit_comma(), e0 + rest);
                        lemma_enc_at_split(s@, pos + 1, e0, rest);
                        assert(pr matches Some(t2) && t2.1 == pos + 1 + e0.len());
                    }
                }
                return None;
            },
        };
        out.push(cl0);
        let ghost mid = out@;
        let rr = parse_cls_tail(s, p2, out);
        proof {
            assert forall|x: Seq<ClusterCenter>|
                #[trigger] enc_at(s@, pos as int, enc_cls_tail(x))
                    && pos + enc_cls_tail(x).len() < s@.len()
                    && s@[pos + enc_cls_tail(x).len()] == 93 implies
                rr == Some((pos + enc_cls_tail(x).len()) as usize)
                    && out@.len() == old(out)@.len() + x.len()
                    && (forall|i: int| 0 <= i < old(out)@.len()
                        ==> out@[i] == old(out)@[i])
                    && (forall|i: int| 0 <= i < x.len()
                        ==> cluster_eqv(out@[old(out)@.len() + i], x[i])) by {
                assert(x.len() > 0) by {
                    if x.len() == 0 {
                        assert(s@[pos as int] == 93);
                    }
                }
                let e0 = enc_cluster_spec(x[0]);
                let rest = enc_cls_tail(x.drop_first());
                assert(enc_cls_tail(x) == lit_comma() + (e0 + rest));
                lemma_enc_at_split(s@, pos as int, lit_comma(), e0 + rest);
                lemma_enc_at_split(s@, pos + 1, e0, rest);
                assert(pr matches Some(t2) && cluster_record_eqv(t2.0, x[0])
                    && t2.1 == pos + 1 + e0.len());
                assert(cluster_eqv(cl0, x[0]) && p2 == pos + 1 + e0.len());
                assert(enc_at(s@, p2 as int, rest));
                assert(p2 + rest.len() == pos + enc_cls_tail(x).len());
                assert(rr == Some((p2 + rest.len()) as usize));
                assert(out@.len() == mid.len() + x.drop_first().len());
                assert forall|i: int| 0 <= i < x.len() implies
                    cluster_eqv(out@[old(out)@.len() + i], x[i]) by {
                    if i == 0 {
                        assert(out@[old(out)@.len() as int] == mid[old(out)@.len() as int]);
                        assert(mid[old(out)@.len() as int] == cl0);
                    } else {
                        assert(cluster_eqv(out@[mid.len() + (i - 1)], x.drop_first()[i - 1]));
                        assert(x.drop_first()[i - 1] == x[i]);
                    }
                }
            }
        }
        rr
    } else {
        if pos > n {
            proof {
                assert forall|x: Seq<ClusterCenter>|
                    #[trigger] enc_at(s@, pos as int, enc_cls_tail(x))
                        && pos + enc_cls_tail(x).len() < s@.len()
                        && s@[pos + enc_cls_tail(x).len()] == 93 implies false by {
                    assert(pos + enc_cls_tail(x).len() < n);
                }
            }
            return None;
        }
        proof {
            assert forall|x: Seq<ClusterCenter>|
                #[trigger] enc_at(s@, pos as int, enc_cls_tail(x))
                    && pos + enc_cls_tail(x).len() < s@.len()
                    && s@[pos + enc_cls_tail(x).len()] == 93 implies
                enc_cls_tail(x).len() == 0 && x.len() == 0 by {
                if x.len() > 0 {
                    assert(enc_cls_tail(x)
                        == lit_comma() + (enc_cluster_spec(x[0]) + enc_cls_tail(x.drop_first())));
                    assert(s@.subrange(pos as int, pos + enc_cls_tail(x).len())[0]
                        == enc_cls_tail(x)[0]);
                    assert(s@[pos as int] == 44);
                    assert(pos < n);
                }
                assert(enc_cls_tail(x) =~= Seq::<u8>::empty());
            }
        }
        Some(pos)
    }
}

/// Reads the whole container: the configuration and the cluster array, the
/// entire input consumed; reads back exactly what the encoder wrote, field
/// for field.
#[verifier::rlimit(100)]
pub fn parse_container(s: &[u8]) -> (r: Option<(Config, Vec<ClusterCenter>)>)
    ensures
        forall|cfg: Config, cls: Seq<ClusterCenter>|
            s@ == #[trigger] enc_container_spec(cfg, cls)
                && name_serializable(cfg.dataset_name@)
                ==> (r matches Some(t) && config_eqv(t.0, cfg) && t.1@.len() == cls.len()
                    && (forall|i: int| 0 <= i < cls.len()
                        ==> cluster_eqv(#[trigger] t.1@[i], cls[i]))),
{
    proof {
        lemma_lit_facts();
        assert forall|cfg: Config, cls: Seq<ClusterCenter>|
            s@ == #[trigger] enc_container_spec(cfg, cls)
                && name_serializable(cfg.dataset_name@) implies
            enc_at(s@, 0, lit_ct_open())
                && enc_at(s@, lit_ct_open().len() as int, enc_config_spec(cfg))
                && enc_at(
                s@,
                lit_ct_open().len() + enc_config_spec(cfg).len() as int,
                lit_ct_clusters(),
            )
                && enc_at(
                s@,
                lit_ct_open().len() + enc_config_spec(cfg).len() + lit_ct_clusters().len() as int,
                enc_cls_head(cls),
            )
                && enc_at(
                s@,
                lit_ct_open().len() + enc_config_spec(cfg).len() + lit_ct_clusters().len()
                    + enc_cls_head(cls).len() as int,
                lit_ct_close(),
            )
                && s@.len() == lit_ct_open().len() + enc_config_spec(cfg).len()
                + lit_ct_clusters().len() + enc_cls_head(cls).len() + lit_ct_close().len() by {
            lemma_cls_prefix_is_head(cls, cls.len() as int);
            assert(cls.take(cls.len() as int) =~= cls);
            assert(enc_container_spec(cfg, cls) == lit_ct_open() + (enc_config_spec(cfg)
                + (lit_ct_clusters() + (enc_cls_head(cls) + lit_ct_close()))));
            assert(enc_at(s@, 0, enc_container_spec(cfg, cls))) by {
                assert(s@.subrange(0, enc_container_spec(cfg, cls).len() as int) =~= s@);
            }
            lemma_enc_at_split(s@, 0, lit_ct_open(), enc_config_spec(cfg) + (lit_ct_clusters()
                + (enc_cls_head(cls) + lit_ct_close())));
            lemma_enc_at_split(s@, lit_ct_open().len() as int, enc_config_spec(cfg),
                lit_ct_clusters() + (enc_cls_head(cls) + lit_ct_close()));
            lemma_enc_at_split(s@, lit_ct_open().len() + enc_config_spec(cfg).len() as int,
                lit_ct_clusters(), enc_cls_head(cls) + lit_ct_close());
            lemma_enc_at_split(s@, lit_ct_open().len() + enc_config_spec(cfg).len()
                + lit_ct_clusters().len() as int, enc_cls_head(cls), lit_ct_close());
        }
    }
    let n = s.len();
    let mut ok: bool = true;
    let mut lv0: Vec<u8> = Vec::new();
    emit_lit_ct_open(&mut lv0);
    proof {
        assert(lv0@ =~= lit_ct_open());
    }
    let r0 = parse_lit(s, 0, &lv0);
    let p1 = match r0 {
        Some(pp) => pp,
        None => {
            ok = false;
            0
        },
    };
    let r1 = parse_config(s, p1);
    let (cfg_v, p2) = match r1 {
        Some(t) => t,
        None => {
            ok = false;
            (Config::default(), 0)
        },
    };
    let mut lv2: Vec<u8> = Vec::new();
    emit_lit_ct_clusters(&mut lv2);
    proof {
        assert(lv2@ =~= lit_ct_clusters());
    }
    let r2 = parse_lit(s, p2, &lv2);
    let p3 = match r2 {
        Some(pp) => pp,
        None => {
            ok = false;
            0
        },
    };
    // the cluster array: empty, or a first record and its continuation
    let mut clusters: Vec<ClusterCenter> = Vec::new();
    let mut p4 = p3;
    let empty_list = p3 < n && s[p3] == 93;
    let mut r3: Option<(ClusterCenter, usize)> = None;
    let mut r3t: Option<usize> = None;
    let ghost mut mid: Seq<ClusterCenter> = clusters@;
    if !empty_list {
        r3 = parse_cluster(s, p3);
        match r3 {
            Some(t) => {
                clusters.push(t.0);
                proof {
                    mid = clusters@;
                }
                r3t = parse_cls_tail(s, t.1, &mut clusters);
                match r3t {
                    Some(pp) => {
                        p4 = pp;
                    },
                    None => {
                        ok = false;
                    },
                }
            },
            None => {
                ok = false;
            },
        }
    }
    if !ok {
        proof {
            assert forall|cfg: Config, cls: Seq<ClusterCenter>|
                s@ == #[trigger] enc_container_spec(cfg, cls)
                    && name_serializable(cfg.dataset_name@) implies false by {
                let hpos = lit_ct_open().len() + enc_config_spec(cfg).len()
                    + lit_ct_clusters().len() as int;
                assert(r0 == Some((0 + lit_ct_open().len()) as usize));
                assert(p1 == lit_ct_open().len());
                assert(r1 matches Some(t2) && config_eqv(t2.0, cfg)
                    && t2.1 == p1 + enc_config_spec(cfg).len());
                assert(p2 == p1 + enc_config_spec(cfg).len());
                assert(r2 == Some((p2 + lit_ct_clusters().len()) as usize));
                assert(p3 == hpos);
                // the list was not empty, so a record and its tail are owed
                assert(!empty_list);
                assert(cls.len() > 0) by {
                    if cls.len() == 0 {
                        assert(enc_cls_head(cls).len() == 0);
                        assert(s@.subrange(hpos, hpos + lit_ct_close().len())[0]
                            == lit_ct_close()[0]);
                        assert(s@[hpos] == 93);
                        assert(p3 < n);
                    }
                }
                let e0 = enc_cluster_spec(cls[0]);
                let rest = enc_cls_tail(cls.drop_first());
                assert(enc_cls_head(cls) == e0 + rest);
                lemma_enc_at_split(s@, hpos, e0, rest);
                assert(r3 matches Some(t2) && cluster_record_eqv(t2.0, cls[0])
                    && t2.1 == hpos + e0.len());
                assert(enc_at(s@, hpos + e0.len(), rest));
                assert(hpos + e0.len() + rest.len() + lit_ct_close().len() == s@.len());
                assert(s@.subrange(
                    hpos + e0.len() + rest.len(),
                    hpos + e0.len() + rest.len() + lit_ct_close().len(),
                )[0] == lit_ct_close()[0]);
                assert(s@[hpos + e0.len() + rest.len()] == 93);
                assert(hpos + e0.len() + rest.len() < s@.len());
                assert(r3t == Some((hpos + e0.len() + rest.len()) as usize));
            }
        }
        return None;
    }
    let mut lv4: Vec<u8> = Vec::new();
    emit_lit_ct_close(&mut lv4);
    proof {
        assert(lv4@ =~= lit_ct_close());
    }
    let r4 = parse_lit(s, p4, &lv4);
    let p5 = match r4 {
        Some(pp) => pp,
        None => {
            0
        },
    };
    proof {
        // on a canonical container the parsed pieces line up exactly
        assert forall|cfg: Config, cls: Seq<ClusterCenter>|
            s@ == #[trigger] enc_container_spec(cfg, cls)
                && name_serializable(cfg.dataset_name@) implies
            config_eqv(cfg_v, cfg) && clusters@.len() == cls.len()
                && (forall|i: int| 0 <= i < cls.len()
                    ==> cluster_eqv(#[trigger] clusters@[i], cls[i]))
                && (r4 matches Some(pp2) && pp2 == s@.len()) by {
            let hpos = lit_ct_open().len() + enc_config_spec(cfg).len()
                + lit_ct_clusters().len() as int;
            assert(r0 == Some((0 + lit_ct_open().len()) as usize));
            assert(p1 == lit_ct_open().len());
            assert(r1 matches Some(t2) && config_eqv(t2.0, cfg)
                && t2.1 == p1 + enc_config_spec(cfg).len());
            assert(p2 == p1 + enc_config_spec(cfg).len());
            assert(r2 == Some((p2 + lit_ct_clusters().len()) as usize));
            assert(p3 == hpos);
            if empty_list {
                assert(cls.len() == 0) by {
                    if cls.len() > 0 {
                        lemma_cluster_first_byte(cls[0]);
                        assert(enc_cls_head(cls)
                            == enc_cluster_spec(cls[0]) + enc_cls_tail(cls.drop_first()));
                        lemma_enc_at_split(s@, hpos, enc_cluster_spec(cls[0]),
                            enc_cls_tail(cls.drop_first()));
                        assert(s@.subrange(hpos, hpos + enc_cluster_spec(cls[0]).len())[0]
                            == enc_cluster_spec(cls[0])[0]);
                        assert(s@[hpos] == 123);
                        assert(s@[p3 as int] == 93);
                    }
                }
                assert(enc_cls_head(cls) =~= Seq::<u8>::empty());
                assert(p4 == hpos);
            } else {
                assert(cls.len() > 0) by {
                    if cls.len() == 0 {
                        assert(enc_cls_head(cls).len() == 0);
                        assert(s@.subrange(hpos, hpos + lit_ct_close().len())[0]
                            == lit_ct_close()[0]);
                        assert(s@[hpos] == 93);
                        assert(p3 < n);
                    }
                }
                let e0 = enc_cluster_spec(cls[0]);
                let rest = enc_cls_tail(cls.drop_first());
                assert(enc_cls_head(cls) == e0 + rest);
                lemma_enc_at_split(s@, hpos, e0, rest);
                assert(r3 matches Some(t2) && cluster_record_eqv(t2.0, cls[0])
                    && t2.1 == hpos + e0.len());
                assert(enc_at(s@, hpos + e0.len(), rest));
                assert(hpos + e0.len() + rest.len() + lit_ct_close().len() == s@.len());
                assert(s@.subrange(
                    hpos + e0.len() + rest.len(),
                    hpos + e0.len() + rest.len() + lit_ct_close().len(),
                )[0] == lit_ct_close()[0]);
                assert(s@[hpos + e0.len() + rest.len()] == 93);
                assert(hpos + e0.len() + rest.len() < s@.len());
                assert(r3t == Some((hpos + e0.len() + rest.len()) as usize)
                    && clusters@.len() == mid.len() + cls.drop_first().len()
                    && (forall|i: int| 0 <= i < mid.len() ==> clusters@[i] == mid[i])
                    && (forall|i: int| 0 <= i < cls.drop_first().len()
                        ==> cluster_eqv(clusters@[mid.len() + i], cls.drop_first()[i])));
                assert(p4 == hpos + e0.len() + rest.len());
                assert forall|i: int| 0 <= i < cls.len() implies
                    cluster_eqv(#[trigger] clusters@[i], cls[i]) by {
                    if i == 0 {
                        assert(clusters@[0] == mid[0]);
                        assert(r3 matches Some(t3) && mid[0] == t3.0);
                    } else {
                        assert(cluster_eqv(clusters@[mid.len() + (i - 1)],
                            cls.drop_first()[i - 1]));
                        assert(cls.drop_first()[i - 1] == cls[i]);
                    }
                }
            }
            assert(enc_at(s@, p4 as int, lit_ct_close()));
            assert(r4 == Some((p4 + lit_ct_close().len()) as usize));
        }
    }
    if r4.is_none() || p5 != n {
        return None;
    }
    Some((cfg_v, clusters))
}

// ---------------------------------------------------------------------------
// The container encoding is injective: two states with the same canonical
// bytes agree on every field the encoder writes. Together with the
// contracts of `serialize` and `new_from_bytes` this gives the round-trip
// law: restoring a serialized index reproduces its configuration and its
// cluster records exactly.

proof fn lemma_cancel_left(a: Seq<u8>, x: Seq<u8>, y: Seq<u8>)
    requires
        a + x == a + y,
    ensures
        x == y,
{
    assert((a + x).len() == (a + y).len());
    assert(x =~= (a + x).subrange(a.len() as int, (a + x).len() as int));
    assert(y =~= (a + y).subrange(a.len() as int, (a + y).len() as int));
}

proof fn lemma_dec_u64_digits(n: nat)
    ensures
        dec_u64(n).len() >= 1,
        forall|i: int| 0 <= i < dec_u64(n).len() ==> is_digit(#[trigger] dec_u64(n)[i]),
        n >= 10 ==> dec_u64(n).len() >= 2,
    decreases n,
{
    if n < 10 {
    } else {
        lemma_dec_u64_digits(n / 10);
        assert(dec_u64(n) == dec_u64(n / 10).push((48 + n % 10) as u8));
        assert forall|i: int| 0 <= i < dec_u64(n).len() implies
            is_digit(#[trigger] dec_u64(n)[i]) by {
            if i < dec_u64(n / 10).len() {
                assert(dec_u64(n)[i] == dec_u64(n / 10)[i]);
            } else {
                assert(dec_u64(n)[i] == (48 + n % 10) as u8);
            }
        }
    }
}

proof fn lemma_dec_u64_inj(a: nat, b: nat)
    requires
        dec_u64(a) == dec_u64(b),
    ensures
        a == b,
    decreases a,
{
    lemma_dec_u64_digits(a);
    lemma_dec_u64_digits(b);
    if a < 10 && b < 10 {
        assert(dec_u64(a)[0] == (48 + a) as u8);
        assert(dec_u64(b)[0] == (48 + b) as u8);
    } else if a < 10 {
        assert(dec_u64(a).len() == 1);
        assert(false);
    } else if b < 10 {
        assert(dec_u64(b).len() == 1);
        assert(false);
    } else {
        let da = dec_u64(a / 10).push((48 + a % 10) as u8);
        let db = dec_u64(b / 10).push((48 + b % 10) as u8);
        assert(da == db);
        assert(da.last() == db.last());
        assert((48 + a % 10) as u8 == (48 + b % 10) as u8);
        assert(a % 10 == b % 10);
        assert(da.drop_last() =~= dec_u64(a / 10));
        assert(db.drop_last() =~= dec_u64(b / 10));
        lemma_dec_u64_inj(a / 10, b / 10);
    }
}

/// A maximal digit run followed by a non-digit splits a byte string
/// unambiguously.
proof fn lemma_digit_run_split(d1: Seq<u8>, r1: Seq<u8>, d2: Seq<u8>, r2: Seq<u8>)
    requires
        d1 + r1 == d2 + r2,
        d1.len() >= 1,
        d2.len() >= 1,
        forall|i: int| 0 <= i < d1.len() ==> is_digit(#[trigger] d1[i]),
        forall|i: int| 0 <= i < d2.len() ==> is_digit(#[trigger] d2[i]),
        r1.len() > 0 ==> !is_digit(r1[0]),
        r2.len() > 0 ==> !is_digit(r2[0]),
    ensures
        d1 == d2,
        r1 == r2,
{
    let s = d1 + r1;
    assert(s.len() == d1.len() + r1.len() && s.len() == d2.len() + r2.len());
    if d1.len() < d2.len() {
        let p = d1.len() as int;
        assert(r1.len() > 0);
        assert(s[p] == r1[0]);
        assert((d2 + r2)[p] == d2[p]);
        assert(false);
    } else if d2.len() < d1.len() {
        let p = d2.len() as int;
        assert(r2.len() > 0);
        assert((d2 + r2)[p] == r2[0]);
        assert(s[p] == d1[p]);
        assert(false);
    } else {
        assert(d1 =~= d2) by {
            assert(forall|i: int| 0 <= i < d1.len()
                ==> #[trigger] d1[i] == s[i] && d2[i] == (d2 + r2)[i]);
        }
        assert(r1 =~= r2) by {
            assert(forall|i: int| 0 <= i < r1.len()
                ==> #[trigger] r1[i] == s[d1.len() + i] && r2[i] == (d2 + r2)[d2.len() + i]);
        }
    }
}

/// A decimal number followed by a non-digit is read back uniquely.
proof fn lemma_u64_split(a: nat, r1: Seq<u8>, b: nat, r2: Seq<u8>)
    requires
        dec_u64(a) + r1 == dec_u64(b) + r2,
        r1.len() > 0 ==> !is_digit(r1[0]),
        r2.len() > 0 ==> !is_digit(r2[0]),
    ensures
        a == b,
        r1 == r2,
{
    lemma_dec_u64_digits(a);
    lemma_dec_u64_digits(b);
    lemma_digit_run_split(dec_u64(a), r1, dec_u64(b), r2);
    lemma_dec_u64_inj(a, b);
}

/// A stored name followed by a quote is read back uniquely.
proof fn lemma_name_split(n1: Seq<u8>, r1: Seq<u8>, n2: Seq<u8>, r2: Seq<u8>)
    requires
        n1 + r1 == n2 + r2,
        name_serializable(n1),
        name_serializable(n2),
        r1.len() > 0 && r1[0] == 34,
        r2.len() > 0 && r2[0] == 34,
    ensures
        n1 == n2,
        r1 == r2,
{
    let s = n1 + r1;
    assert(s.len() == n1.len() + r1.len() && s.len() == n2.len() + r2.len());
    if n1.len() < n2.len() {
        let p = n1.len() as int;
        assert(s[p] == r1[0]);
        assert((n2 + r2)[p] == n2[p]);
        assert(n2[p] != 34);
        assert(false);
    } else if n2.len() < n1.len() {
        let p = n2.len() as int;
        assert((n2 + r2)[p] == r2[0]);
        assert(s[p] == n1[p]);
        assert(n1[p] != 34);
        assert(false);
    } else {
        assert(n1 =~= n2) by {
            assert(forall|i: int| 0 <= i < n1.len()
                ==> #[trigger] n1[i] == s[i] && n2[i] == (n2 + r2)[i]);
        }
        assert(r1 =~= r2) by {
            assert(forall|i: int| 0 <= i < r1.len()
                ==> #[trigger] r1[i] == s[n1.len() + i] && r2[i] == (n2 + r2)[n2.len() + i]);
        }
    }
}

/// The fraction part of a ratio encoding, on its own.
spec fn frac_digits(f: nat) -> Seq<u8> {
    if f == 0 {
        seq![48u8]
    } else if f % 100 == 0 {
        seq![(48 + f / 100) as u8]
    } else if f % 10 == 0 {
        seq![(48 + f / 100) as u8, (48 + (f / 10) % 10) as u8]
    } else {
        seq![(48 + f / 100) as u8, (48 + (f / 10) % 10) as u8, (48 + f % 10) as u8]
    }
}

proof fn lemma_frac_digits_are_digits(f: nat)
    requires
        f < 1000,
    ensures
        1 <= frac_digits(f).len() <= 3,
        forall|i: int| 0 <= i < frac_digits(f).len() ==> is_digit(#[trigger] frac_digits(f)[i]),
{
}

#[verifier::rlimit(100)]
proof fn lemma_frac_inj(f1: nat, f2: nat)
    requires
        f1 < 1000,
        f2 < 1000,
        frac_digits(f1) == frac_digits(f2),
    ensures
        f1 == f2,
{
    let a = frac_digits(f1);
    let b = frac_digits(f2);
    assert(a.len() == b.len());
    if a.len() == 1 {
        assert(a[0] == b[0]);
        if f1 == 0 && f2 == 0 {
        } else if f1 == 0 {
            assert(b[0] == (48 + f2 / 100) as u8);
            assert(f2 % 100 == 0 && f2 != 0);
            assert(f2 / 100 >= 1);
            assert(false);
        } else if f2 == 0 {
            assert(a[0] == (48 + f1 / 100) as u8);
            assert(f1 % 100 == 0 && f1 != 0);
            assert(f1 / 100 >= 1);
            assert(false);
        } else {
            assert(f1 % 100 == 0 && f2 % 100 == 0);
            assert(a[0] == (48 + f1 / 100) as u8);
            assert(b[0] == (48 + f2 / 100) as u8);
            assert(f1 / 100 < 10 && f2 / 100 < 10);
            assert(f1 / 100 == f2 / 100);
            assert(f1 == 100 * (f1 / 100) && f2 == 100 * (f2 / 100)) by (nonlinear_arith)
                requires f1 % 100 == 0, f2 % 100 == 0, f1 < 1000, f2 < 1000;
        }
    } else if a.len() == 2 {
        assert(f1 % 10 == 0 && f1 % 100 != 0 && f2 % 10 == 0 && f2 % 100 != 0);
        assert(a[0] == b[0] && a[1] == b[1]);
        assert(f1 / 100 == f2 / 100 && (f1 / 10) % 10 == (f2 / 10) % 10);
        assert(f1 == 100 * (f1 / 100) + 10 * ((f1 / 10) % 10) + f1 % 10) by (nonlinear_arith)
            requires f1 < 1000;
        assert(f2 == 100 * (f2 / 100) + 10 * ((f2 / 10) % 10) + f2 % 10) by (nonlinear_arith)
            requires f2 < 1000;
    } else {
        assert(f1 % 10 != 0 && f2 % 10 != 0);
        assert(a[0] == b[0] && a[1] == b[1] && a[2] == b[2]);
        assert(f1 / 100 == f2 / 100 && (f1 / 10) % 10 == (f2 / 10) % 10 && f1 % 10 == f2 % 10);
        assert(f1 == 100 * (f1 / 100) + 10 * ((f1 / 10) % 10) + f1 % 10) by (nonlinear_arith)
            requires f1 < 1000;
        assert(f2 == 100 * (f2 / 100) + 10 * ((f2 / 10) % 10) + f2 % 10) by (nonlinear_arith)
            requires f2 < 1000;
    }
}

/// A ratio encoding followed by a non-digit is read back uniquely.
proof fn lemma_milli_split(v1: nat, r1: Seq<u8>, v2: nat, r2: Seq<u8>)
    requires
        enc_milli_spec(v1) + r1 == enc_milli_spec(v2) + r2,
        r1.len() > 0 ==> !is_digit(r1[0]),
        r2.len() > 0 ==> !is_digit(r2[0]),
    ensures
        v1 == v2,
        r1 == r2,
{
    let f1 = v1 % 1000;
    let f2 = v2 % 1000;
    assert(enc_milli_spec(v1) == dec_u64(v1 / 1000) + seq![46u8] + frac_digits(f1));
    assert(enc_milli_spec(v2) == dec_u64(v2 / 1000) + seq![46u8] + frac_digits(f2));
    let t1 = seq![46u8] + (frac_digits(f1) + r1);
    let t2 = seq![46u8] + (frac_digits(f2) + r2);
    assert(dec_u64(v1 / 1000) + t1 == enc_milli_spec(v1) + r1) by {
        vstd::seq_lib::lemma_concat_associative(
            dec_u64(v1 / 1000) + seq![46u8],
            frac_digits(f1),
            r1,
        );
        vstd::seq_lib::lemma_concat_associative(
            dec_u64(v1 / 1000),
            seq![46u8],
            frac_digits(f1) + r1,
        );
    }
    assert(dec_u64(v2 / 1000) + t2 == enc_milli_spec(v2) + r2) by {
        vstd::seq_lib::lemma_concat_associative(
            dec_u64(v2 / 1000) + seq![46u8],
            frac_digits(f2),
            r2,
        );
        vstd::seq_lib::lemma_concat_associative(
            dec_u64(v2 / 1000),
            seq![46u8],
            frac_digits(f2) + r2,
        );
    }
    assert(t1[0] == 46 && !is_digit(t1[0]));
    assert(t2[0] == 46 && !is_digit(t2[0]));
    lemma_u64_split(v1 / 1000, t1, v2 / 1000, t2);
    lemma_cancel_left(seq![46u8], frac_digits(f1) + r1, frac_digits(f2) + r2);
    lemma_frac_digits_are_digits(f1);
    lemma_frac_digits_are_digits(f2);
    lemma_digit_run_split(frac_digits(f1), r1, frac_digits(f2), r2);
    lemma_frac_inj(f1, f2);
    assert(v1 == 1000 * (v1 / 1000) + v1 % 1000) by (nonlinear_arith);
    assert(v2 == 1000 * (v2 / 1000) + v2 % 1000) by (nonlinear_arith);
}

/// A configuration encoding is a prefix code: equal streams give equal
/// configurations (field for field) and equal remainders.
proof fn lemma_config_split(c1: Config, r1: Seq<u8>, c2: Config, r2: Seq<u8>)
    requires
        enc_config_spec(c1) + r1 == enc_config_spec(c2) + r2,
        name_serializable(c1.dataset_name@),
        name_serializable(c2.dataset_name@),
    ensures
        c1.num_tables == c2.num_tables,
        c1.num_clusters_factor == c2.num_clusters_factor,
        c1.k == c2.k,
        c1.delta == c2.delta,
        c1.dataset_name@ == c2.dataset_name@,
        c1.metrics_output == c2.metrics_output,
        r1 == r2,
{
    let v1 = if c1.metrics_output is DB { lit_db() } else { lit_none() };
    let v2 = if c2.metrics_output is DB { lit_db() } else { lit_none() };
    assert(enc_config_spec(c1) == lit_cfg_open() + (dec_u64(c1.num_tables as nat) + (lit_cfg_factor() + (enc_milli_spec(c1.num_clusters_factor as nat) + (lit_cfg_k() + (dec_u64(c1.k as nat) + (lit_cfg_delta() + (enc_milli_spec(c1.delta as nat) + (lit_cfg_name() + (c1.dataset_name@ + (lit_cfg_metrics() + (v1 + (lit_cfg_close())))))))))))));
    assert(enc_config_spec(c2) == lit_cfg_open() + (dec_u64(c2.num_tables as nat) + (lit_cfg_factor() + (enc_milli_spec(c2.num_clusters_factor as nat) + (lit_cfg_k() + (dec_u64(c2.k as nat) + (lit_cfg_delta() + (enc_milli_spec(c2.delta as nat) + (lit_cfg_name() + (c2.dataset_name@ + (lit_cfg_metrics() + (v2 + (lit_cfg_close())))))))))))));
    vstd::seq_lib::lemma_concat_associative(lit_cfg_open(), dec_u64(c1.num_tables as nat) + (lit_cfg_factor() + (enc_milli_spec(c1.num_clusters_factor as nat) + (lit_cfg_k() + (dec_u64(c1.k as nat) + (lit_cfg_delta() + (enc_milli_spec(c1.delta as nat) + (lit_cfg_name() + (c1.dataset_name@ + (lit_cfg_metrics() + (v1 + (lit_cfg_close()))))))))))), r1);
    vstd::seq_lib::lemma_concat_associative(lit_cfg_open(), dec_u64(c2.num_tables as nat) + (lit_cfg_factor() + (enc_milli_spec(c2.num_clusters_factor as nat) + (lit_cfg_k() + (dec_u64(c2.k as nat) + (lit_cfg_delta() + (enc_milli_spec(c2.delta as nat) + (lit_cfg_name() + (c2.dataset_name@ + (lit_cfg_metrics() + (v2 + (lit_cfg_close()))))))))))), r2);
    lemma_cancel_left(lit_cfg_open(), (dec_u64(c1.num_tables as nat) + (lit_cfg_factor() + (enc_milli_spec(c1.num_clusters_factor as nat) + (lit_cfg_k() + (dec_u64(c1.k as nat) + (lit_cfg_delta() + (enc_milli_spec(c1.delta as nat) + (lit_cfg_name() + (c1.dataset_name@ + (lit_cfg_metrics() + (v1 + (lit_cfg_close())))))))))))) + r1, (dec_u64(c2.num_tables as nat) + (lit_cfg_factor() + (enc_milli_spec(c2.num_clusters_factor as nat) + (lit_cfg_k() + (dec_u64(c2.k as nat) + (lit_cfg_delta() + (enc_milli_spec(c2.delta as nat) + (lit_cfg_name() + (c2.dataset_name@ + (lit_cfg_metrics() + (v2 + (lit_cfg_close())))))))))))) + r2);
    vstd::seq_lib::lemma_concat_associative(dec_u64(c1.num_tables as nat), lit_cfg_factor() + (enc_milli_spec(c1.num_clusters_factor as nat) + (lit_cfg_k() + (dec_u64(c1.k as nat) + (lit_cfg_delta() + (enc_milli_spec(c1.delta as nat) + (lit_cfg_name() + (c1.dataset_name@ + (lit_cfg_metrics() + (v1 + (lit_cfg_close())))))))))), r1);
    vstd::seq_lib::lemma_concat_associative(dec_u64(c2.num_tables as nat), lit_cfg_factor() + (enc_milli_spec(c2.num_clusters_factor as nat) + (lit_cfg_k() + (dec_u64(c2.k as nat) + (lit_cfg_delta() + (enc_milli_spec(c2.delta as nat) + (lit_cfg_name() + (c2.dataset_name@ + (lit_cfg_metrics() + (v2 + (lit_cfg_close())))))))))), r2);
    assert(((lit_cfg_factor() + (enc_milli_spec(c1.num_clusters_factor as nat) + (lit_cfg_k() + (dec_u64(c1.k as nat) + (lit_cfg_delta() + (enc_milli_spec(c1.delta as nat) + (lit_cfg_name() + (c1.dataset_name@ + (lit_cfg_metrics() + (v1 + (lit_cfg_close()))))))))))) + r1)[0] == 44);
    assert(((lit_cfg_factor() + (enc_milli_spec(c2.num_clusters_factor as nat) + (lit_cfg_k() + (dec_u64(c2.k as nat) + (lit_cfg_delta() + (enc_milli_spec(c2.delta as nat) + (lit_cfg_name() + (c2.dataset_name@ + (lit_cfg_metrics() + (v2 + (lit_cfg_close()))))))))))) + r2)[0] == 44);
    lemma_u64_split(c1.num_tables as nat, (lit_cfg_factor() + (enc_milli_spec(c1.num_clusters_factor as nat) + (lit_cfg_k() + (dec_u64(c1.k as nat) + (lit_cfg_delta() + (enc_milli_spec(c1.delta as nat) + (lit_cfg_name() + (c1.dataset_name@ + (lit_cfg_metrics() + (v1 + (lit_cfg_close()))))))))))) + r1, c2.num_tables as nat, (lit_cfg_factor() + (enc_milli_spec(c2.num_clusters_factor as nat) + (lit_cfg_k() + (dec_u64(c2.k as nat) + (lit_cfg_delta() + (enc_milli_spec(c2.delta as nat) + (lit_cfg_name() + (c2.dataset_name@ + (lit_cfg_metrics() + (v2 + (lit_cfg_close()))))))))))) + r2);
    vstd::seq_lib::lemma_concat_associative(lit_cfg_factor(), enc_milli_spec(c1.num_clusters_factor as nat) + (lit_cfg_k() + (dec_u64(c1.k as nat) + (lit_cfg_delta() + (enc_milli_spec(c1.delta as nat) + (lit_cfg_name() + (c1.dataset_name@ + (lit_cfg_metrics() + (v1 + (lit_cfg_close()))))))))), r1);
    vstd::seq_lib::lemma_concat_associative(lit_cfg_factor(), enc_milli_spec(c2.num_clusters_factor as nat) + (lit_cfg_k() + (dec_u64(c2.k as nat) + (lit_cfg_delta() + (enc_milli_spec(c2.delta as nat) + (lit_cfg_name() + (c2.dataset_name@ + (lit_cfg_metrics() + (v2 + (lit_cfg_close()))))))))), r2);
    lemma_cancel_left(lit_cfg_factor(), (enc_milli_spec(c1.num_clusters_factor as nat) + (lit_cfg_k() + (dec_u64(c1.k as nat) + (lit_cfg_delta() + (enc_milli_spec(c1.delta as nat) + (lit_cfg_name() + (c1.dataset_name@ + (lit_cfg_metrics() + (v1 + (lit_cfg_close())))))))))) + r1, (enc_milli_spec(c2.num_clusters_factor as nat) + (lit_cfg_k() + (dec_u64(c2.k as nat) + (lit_cfg_delta() + (enc_milli_spec(c2.delta as nat) + (lit_cfg_name() + (c2.dataset_name@ + (lit_cfg_metrics() + (v2 + (lit_cfg_close())))))))))) + r2);
    vstd::seq_lib::lemma_concat_associative(enc_milli_spec(c1.num_clusters_factor as nat), lit_cfg_k() + (dec_u64(c1.k as nat) + (lit_cfg_delta() + (enc_milli_spec(c1.delta as nat) + (lit_cfg_name() + (c1.dataset_name@ + (lit_cfg_metrics() + (v1 + (lit_cfg_close())))))))), r1);
    vstd::seq_lib::lemma_concat_associative(enc_milli_spec(c2.num_clusters_factor as nat), lit_cfg_k() + (dec_u64(c2.k as nat) + (lit_cfg_delta() + (enc_milli_spec(c2.delta as nat) + (lit_cfg_name() + (c2.dataset_name@ + (lit_cfg_metrics() + (v2 + (lit_cfg_close())))))))), r2);
    assert(((lit_cfg_k() + (dec_u64(c1.k as nat) + (lit_cfg_delta() + (enc_milli_spec(c1.delta as nat) + (lit_cfg_name() + (c1.dataset_name@ + (lit_cfg_metrics() + (v1 + (lit_cfg_close()))))))))) + r1)[0] == 44);
    assert(((lit_cfg_k() + (dec_u64(c2.k as nat) + (lit_cfg_delta() + (enc_milli_spec(c2.delta as nat) + (lit_cfg_name() + (c2.dataset_name@ + (lit_cfg_metrics() + (v2 + (lit_cfg_close()))))))))) + r2)[0] == 44);
    lemma_milli_split(c1.num_clusters_factor as nat, (lit_cfg_k() + (dec_u64(c1.k as nat) + (lit_cfg_delta() + (enc_milli_spec(c1.delta as nat) + (lit_cfg_name() + (c1.dataset_name@ + (lit_cfg_metrics() + (v1 + (lit_cfg_close()))))))))) + r1, c2.num_clusters_factor as nat, (lit_cfg_k() + (dec_u64(c2.k as nat) + (lit_cfg_delta() + (enc_milli_spec(c2.delta as nat) + (lit_cfg_name() + (c2.dataset_name@ + (lit_cfg_metrics() + (v2 + (lit_cfg_close()))))))))) + r2);
    vstd::seq_lib::lemma_concat_associative(lit_cfg_k(), dec_u64(c1.k as nat) + (lit_cfg_delta() + (enc_milli_spec(c1.delta as nat) + (lit_cfg_name() + (c1.dataset_name@ + (lit_cfg_metrics() + (v1 + (lit_cfg_close()))))))), r1);
    vstd::seq_lib::lemma_concat_associative(lit_cfg_k(), dec_u64(c2.k as nat) + (lit_cfg_delta() + (enc_milli_spec(c2.delta as nat) + (lit_cfg_name() + (c2.dataset_name@ + (lit_cfg_metrics() + (v2 + (lit_cfg_close()))))))), r2);
    lemma_cancel_left(lit_cfg_k(), (dec_u64(c1.k as nat) + (lit_cfg_delta() + (enc_milli_spec(c1.delta as nat) + (lit_cfg_name() + (c1.dataset_name@ + (lit_cfg_metrics() + (v1 + (lit_cfg_close())))))))) + r1, (dec_u64(c2.k as nat) + (lit_cfg_delta() + (enc_milli_spec(c2.delta as nat) + (lit_cfg_name() + (c2.dataset_name@ + (lit_cfg_metrics() + (v2 + (lit_cfg_close())))))))) + r2);
    vstd::seq_lib::lemma_concat_associative(dec_u64(c1.k as nat), lit_cfg_delta() + (enc_milli_spec(c1.delta as nat) + (lit_cfg_name() + (c1.dataset_name@ + (lit_cfg_metrics() + (v1 + (lit_cfg_close())))))), r1);
    vstd::seq_lib::lemma_concat_associative(dec_u64(c2.k as nat), lit_cfg_delta() + (enc_milli_spec(c2.delta as nat) + (lit_cfg_name() + (c2.dataset_name@ + (lit_cfg_metrics() + (v2 + (lit_cfg_close())))))), r2);
    assert(((lit_cfg_delta() + (enc_milli_spec(c1.delta as nat) + (lit_cfg_name() + (c1.dataset_name@ + (lit_cfg_metrics() + (v1 + (lit_cfg_close()))))))) + r1)[0] == 44);
    assert(((lit_cfg_delta() + (enc_milli_spec(c2.delta as nat) + (lit_cfg_name() + (c2.dataset_name@ + (lit_cfg_metrics() + (v2 + (lit_cfg_close()))))))) + r2)[0] == 44);
    lemma_u64_split(c1.k as nat, (lit_cfg_delta() + (enc_milli_spec(c1.delta as nat) + (lit_cfg_name() + (c1.dataset_name@ + (lit_cfg_metrics() + (v1 + (lit_cfg_close()))))))) + r1, c2.k as nat, (lit_cfg_delta() + (enc_milli_spec(c2.delta as nat) + (lit_cfg_name() + (c2.dataset_name@ + (lit_cfg_metrics() + (v2 + (lit_cfg_close()))))))) + r2);
    vstd::seq_lib::lemma_concat_associative(lit_cfg_delta(), enc_milli_spec(c1.delta as nat) + (lit_cfg_name() + (c1.dataset_name@ + (lit_cfg_metrics() + (v1 + (lit_cfg_close()))))), r1);
    vstd::seq_lib::lemma_concat_associative(lit_cfg_delta(), enc_milli_spec(c2.delta as nat) + (lit_cfg_name() + (c2.dataset_name@ + (lit_cfg_metrics() + (v2 + (lit_cfg_close()))))), r2);
    lemma_cancel_left(lit_cfg_delta(), (enc_milli_spec(c1.delta as nat) + (lit_cfg_name() + (c1.dataset_name@ + (lit_cfg_metrics() + (v1 + (lit_cfg_close())))))) + r1, (enc_milli_spec(c2.delta as nat) + (lit_cfg_name() + (c2.dataset_name@ + (lit_cfg_metrics() + (v2 + (lit_cfg_close())))))) + r2);
    vstd::seq_lib::lemma_concat_associative(enc_milli_spec(c1.delta as nat), lit_cfg_name() + (c1.dataset_name@ + (lit_cfg_metrics() + (v1 + (lit_cfg_close())))), r1);
    vstd::seq_lib::lemma_concat_associative(enc_milli_spec(c2.delta as nat), lit_cfg_name() + (c2.dataset_name@ + (lit_cfg_metrics() + (v2 + (lit_cfg_close())))), r2);
    assert(((lit_cfg_name() + (c1.dataset_name@ + (lit_cfg_metrics() + (v1 + (lit_cfg_close()))))) + r1)[0] == 44);
    assert(((lit_cfg_name() + (c2.dataset_name@ + (lit_cfg_metrics() + (v2 + (lit_cfg_close()))))) + r2)[0] == 44);
    lemma_milli_split(c1.delta as nat, (lit_cfg_name() + (c1.dataset_name@ + (lit_cfg_metrics() + (v1 + (lit_cfg_close()))))) + r1, c2.delta as nat, (lit_cfg_name() + (c2.dataset_name@ + (lit_cfg_metrics() + (v2 + (lit_cfg_close()))))) + r2);
    vstd::seq_lib::lemma_concat_associative(lit_cfg_name(), c1.dataset_name@ + (lit_cfg_metrics() + (v1 + (lit_cfg_close()))), r1);
    vstd::seq_lib::lemma_concat_associative(lit_cfg_name(), c2.dataset_name@ + (lit_cfg_metrics() + (v2 + (lit_cfg_close()))), r2);
    lemma_cancel_left(lit_cfg_name(), (c1.dataset_name@ + (lit_cfg_metrics() + (v1 + (lit_cfg_close())))) + r1, (c2.dataset_name@ + (lit_cfg_metrics() + (v2 + (lit_cfg_close())))) + r2);
    vstd::seq_lib::lemma_concat_associative(c1.dataset_name@, lit_cfg_metrics() + (v1 + (lit_cfg_close())), r1);
    vstd::seq_lib::lemma_concat_associative(c2.dataset_name@, lit_cfg_metrics() + (v2 + (lit_cfg_close())), r2);
    assert(((lit_cfg_metrics() + (v1 + (lit_cfg_close()))) + r1)[0] == 34);
    assert(((lit_cfg_metrics() + (v2 + (lit_cfg_close()))) + r2)[0] == 34);
    lemma_name_split(c1.dataset_name@, (lit_cfg_metrics() + (v1 + (lit_cfg_close()))) + r1, c2.dataset_name@, (lit_cfg_metrics() + (v2 + (lit_cfg_close()))) + r2);
    vstd::seq_lib::lemma_concat_associative(lit_cfg_metrics(), v1 + (lit_cfg_close()), r1);
    vstd::seq_lib::lemma_concat_associative(lit_cfg_metrics(), v2 + (lit_cfg_close()), r2);
    lemma_cancel_left(lit_cfg_metrics(), (v1 + (lit_cfg_close())) + r1, (v2 + (lit_cfg_close())) + r2);
    vstd::seq_lib::lemma_concat_associative(v1, lit_cfg_close(), r1);
    vstd::seq_lib::lemma_concat_associative(v2, lit_cfg_close(), r2);
    if c1.metrics_output != c2.metrics_output {
        assert(v1[0] != v2[0]);
        assert((v1 + ((lit_cfg_close()) + r1))[0] == v1[0]);
        assert((v2 + ((lit_cfg_close()) + r2))[0] == v2[0]);
        assert(false);
    }
    assert(v1 == v2);
    lemma_cancel_left(v1, (lit_cfg_close()) + r1, (lit_cfg_close()) + r2);
    lemma_cancel_left(lit_cfg_close(), r1, r2);
}


/// Front-recursive form of a u64 array body: first member, then the rest
/// with separators.
spec fn enc_arr_head(a: Seq<usize>) -> Seq<u8>
    decreases a.len(),
{
    if a.len() == 0 {
        Seq::empty()
    } else {
        dec_u64(a[0] as nat) + enc_arr_tail(a.drop_first())
    }
}

spec fn enc_arr_tail(a: Seq<usize>) -> Seq<u8>
    decreases a.len(),
{
    if a.len() == 0 {
        Seq::empty()
    } else {
        lit_comma() + (dec_u64(a[0] as nat) + enc_arr_tail(a.drop_first()))
    }
}

proof fn lemma_arr_tail_snoc(x: Seq<usize>, e: usize)
    ensures
        enc_arr_tail(x.push(e)) == enc_arr_tail(x) + (lit_comma() + dec_u64(e as nat)),
    decreases x.len(),
{
    if x.len() == 0 {
        assert(x.push(e).drop_first() =~= Seq::<usize>::empty());
        assert(x.push(e)[0] == e);
        assert(enc_arr_tail(Seq::<usize>::empty()) == Seq::<u8>::empty());
        assert(enc_arr_tail(x.push(e))
            == lit_comma() + (dec_u64(e as nat) + Seq::<u8>::empty()));
        assert(dec_u64(e as nat) + Seq::<u8>::empty() =~= dec_u64(e as nat));
        assert(enc_arr_tail(x) + (lit_comma() + dec_u64(e as nat))
            =~= lit_comma() + dec_u64(e as nat));
    } else {
        assert(x.push(e).drop_first() =~= x.drop_first().push(e));
        lemma_arr_tail_snoc(x.drop_first(), e);
        let d0 = dec_u64(x[0] as nat);
        let t = enc_arr_tail(x.drop_first());
        let se = lit_comma() + dec_u64(e as nat);
        assert(enc_arr_tail(x.push(e)) == lit_comma() + (d0 + (t + se)));
        vstd::seq_lib::lemma_concat_associative(d0, t, se);
        vstd::seq_lib::lemma_concat_associative(lit_comma(), d0 + t, se);
        assert(enc_arr_tail(x) + se == (lit_comma() + (d0 + t)) + se);
    }
}

proof fn lemma_arr_head_snoc(x: Seq<usize>, e: usize)
    requires
        x.len() >= 1,
    ensures
        enc_arr_head(x.push(e)) == enc_arr_head(x) + (lit_comma() + dec_u64(e as nat)),
{
    assert(x.push(e).drop_first() =~= x.drop_first().push(e));
    lemma_arr_tail_snoc(x.drop_first(), e);
    let d0 = dec_u64(x[0] as nat);
    let t = enc_arr_tail(x.drop_first());
    let se = lit_comma() + dec_u64(e as nat);
    assert(enc_arr_head(x.push(e)) == d0 + (t + se));
    vstd::seq_lib::lemma_concat_associative(d0, t, se);
}

/// The array body the encoder emits equals its front-recursive form.
proof fn lemma_arr_prefix_is_head(a: Seq<usize>, m: int)
    requires
        0 <= m <= a.len(),
    ensures
        enc_u64_array_prefix(a, m) == enc_arr_head(a.take(m)),
    decreases m,
{
    if m <= 0 {
        assert(a.take(0) =~= Seq::<usize>::empty());
    } else if m == 1 {
        assert(a.take(1) =~= Seq::<usize>::empty().push(a[0]));
        assert(a.take(1).drop_first() =~= Seq::<usize>::empty());
        assert(enc_arr_head(a.take(1)) == dec_u64(a[0] as nat) + Seq::<u8>::empty());
        assert(dec_u64(a[0] as nat) + Seq::<u8>::empty() =~= dec_u64(a[0] as nat));
    } else {
        lemma_arr_prefix_is_head(a, m - 1);
        assert(a.take(m) =~= a.take(m - 1).push(a[m - 1]));
        lemma_arr_head_snoc(a.take(m - 1), a[m - 1]);
        let p = enc_u64_array_prefix(a, m - 1);
        let se = lit_comma() + dec_u64(a[m - 1] as nat);
        assert(enc_u64_array_prefix(a, m)
            == (p + lit_comma()) + dec_u64(a[m - 1] as nat));
        vstd::seq_lib::lemma_concat_associative(p, lit_comma(), dec_u64(a[m - 1] as nat));
    }
}

/// An encoded member array followed by a closing bracket is read back
/// uniquely.
proof fn lemma_arr_split(a1: Seq<usize>, r1: Seq<u8>, a2: Seq<usize>, r2: Seq<u8>)
    requires
        enc_arr_head(a1) + r1 == enc_arr_head(a2) + r2,
        r1.len() > 0 && r1[0] == 93,
        r2.len() > 0 && r2[0] == 93,
    ensures
        a1 == a2,
        r1 == r2,
    decreases a1.len(),
{
    if a1.len() == 0 && a2.len() == 0 {
        assert(enc_arr_head(a1) + r1 =~= r1);
        assert(enc_arr_head(a2) + r2 =~= r2);
        assert(a1 =~= a2);
    } else if a1.len() == 0 {
        lemma_dec_u64_digits(a2[0] as nat);
        assert(enc_arr_head(a1) + r1 =~= r1);
        assert((enc_arr_head(a2) + r2)[0] == dec_u64(a2[0] as nat)[0]);
        assert(is_digit(dec_u64(a2[0] as nat)[0]));
        assert(false);
    } else if a2.len() == 0 {
        lemma_dec_u64_digits(a1[0] as nat);
        assert(enc_arr_head(a2) + r2 =~= r2);
        assert((enc_arr_head(a1) + r1)[0] == dec_u64(a1[0] as nat)[0]);
        assert(is_digit(dec_u64(a1[0] as nat)[0]));
        assert(false);
    } else {
        let t1 = enc_arr_tail(a1.drop_first());
        let t2 = enc_arr_tail(a2.drop_first());
        vstd::seq_lib::lemma_concat_associative(dec_u64(a1[0] as nat), t1, r1);
        vstd::seq_lib::lemma_concat_associative(dec_u64(a2[0] as nat), t2, r2);
        assert((t1 + r1).len() > 0 ==> !is_digit((t1 + r1)[0])) by {
            if t1.len() > 0 {
                assert((t1 + r1)[0] == lit_comma()[0]);
            } else {
                assert(t1 + r1 =~= r1);
            }
        }
        assert((t2 + r2).len() > 0 ==> !is_digit((t2 + r2)[0])) by {
            if t2.len() > 0 {
                assert((t2 + r2)[0] == lit_comma()[0]);
            } else {
                assert(t2 + r2 =~= r2);
            }
        }
        lemma_u64_split(a1[0] as nat, t1 + r1, a2[0] as nat, t2 + r2);
        if a1.drop_first().len() == 0 && a2.drop_first().len() == 0 {
            assert(t1 + r1 =~= r1);
            assert(t2 + r2 =~= r2);
            assert(a1 =~= a2);
        } else if a1.drop_first().len() == 0 {
            assert(t1 + r1 =~= r1);
            assert((t2 + r2)[0] == lit_comma()[0]);
            assert(false);
        } else if a2.drop_first().len() == 0 {
            assert(t2 + r2 =~= r2);
            assert((t1 + r1)[0] == lit_comma()[0]);
            assert(false);
        } else {
            let h1 = enc_arr_head(a1.drop_first());
            let h2 = enc_arr_head(a2.drop_first());
            assert(t1 == lit_comma() + h1);
            assert(t2 == lit_comma() + h2);
            vstd::seq_lib::lemma_concat_associative(lit_comma(), h1, r1);
            vstd::seq_lib::lemma_concat_associative(lit_comma(), h2, r2);
            lemma_cancel_left(lit_comma(), h1 + r1, h2 + r2);
            lemma_arr_split(a1.drop_first(), r1, a2.drop_first(), r2);
            assert(a1 =~= a2) by {
                assert(a1[0] == a2[0]);
                assert(forall|i: int| 1 <= i < a1.len()
                    ==> a1[i] == a1.drop_first()[i - 1] && a2[i] == a2.drop_first()[i - 1]);
            }
        }
    }
}

/// Two cluster records agree on every stored field.
pub open spec fn cluster_eqv(a: ClusterCenter, b: ClusterCenter) -> bool {
    &&& a.idx == b.idx
    &&& a.center_idx == b.center_idx
    &&& a.radius == b.radius
    &&& a.assignment@ == b.assignment@
    &&& a.brute_force == b.brute_force
    &&& a.memory_used == b.memory_used
}

/// A cluster record encoding is a prefix code.
#[verifier::rlimit(100)]
proof fn lemma_cluster_split(cl1: ClusterCenter, r1: Seq<u8>, cl2: ClusterCenter, r2: Seq<u8>)
    requires
        enc_cluster_spec(cl1) + r1 == enc_cluster_spec(cl2) + r2,
    ensures
        cluster_eqv(cl1, cl2),
        r1 == r2,
{
    let v1 = if cl1.brute_force { lit_true() } else { lit_false() };
    let v2 = if cl2.brute_force { lit_true() } else { lit_false() };
    assert(enc_cluster_spec(cl1) == lit_cl_open() + (dec_u64(cl1.idx as nat) + (lit_cl_center() + (dec_u64(cl1.center_idx as nat) + (lit_cl_radius() + (dec_u64(cl1.radius as nat) + (lit_cl_assignment() + (enc_u64_array_prefix(cl1.assignment@, cl1.assignment@.len() as int) + (lit_cl_brute() + (v1 + (lit_cl_memory() + (dec_u64(cl1.memory_used as nat) + (lit_cl_close())))))))))))));
    assert(enc_cluster_spec(cl2) == lit_cl_open() + (dec_u64(cl2.idx as nat) + (lit_cl_center() + (dec_u64(cl2.center_idx as nat) + (lit_cl_radius() + (dec_u64(cl2.radius as nat) + (lit_cl_assignment() + (enc_u64_array_prefix(cl2.assignment@, cl2.assignment@.len() as int) + (lit_cl_brute() + (v2 + (lit_cl_memory() + (dec_u64(cl2.memory_used as nat) + (lit_cl_close())))))))))))));
    vstd::seq_lib::lemma_concat_associative(lit_cl_open(), dec_u64(cl1.idx as nat) + (lit_cl_center() + (dec_u64(cl1.center_idx as nat) + (lit_cl_radius() + (dec_u64(cl1.radius as nat) + (lit_cl_assignment() + (enc_u64_array_prefix(cl1.assignment@, cl1.assignment@.len() as int) + (lit_cl_brute() + (v1 + (lit_cl_memory() + (dec_u64(cl1.memory_used as nat) + (lit_cl_close()))))))))))), r1);
    vstd::seq_lib::lemma_concat_associative(lit_cl_open(), dec_u64(cl2.idx as nat) + (lit_cl_center() + (dec_u64(cl2.center_idx as nat) + (lit_cl_radius() + (dec_u64(cl2.radius as nat) + (lit_cl_assignment() + (enc_u64_array_prefix(cl2.assignment@, cl2.assignment@.len() as int) + (lit_cl_brute() + (v2 + (lit_cl_memory() + (dec_u64(cl2.memory_used as nat) + (lit_cl_close()))))))))))), r2);
    lemma_cancel_left(lit_cl_open(), (dec_u64(cl1.idx as nat) + (lit_cl_center() + (dec_u64(cl1.center_idx as nat) + (lit_cl_radius() + (dec_u64(cl1.radius as nat) + (lit_cl_assignment() + (enc_u64_array_prefix(cl1.assignment@, cl1.assignment@.len() as int) + (lit_cl_brute() + (v1 + (lit_cl_memory() + (dec_u64(cl1.memory_used as nat) + (lit_cl_close())))))))))))) + r1, (dec_u64(cl2.idx as nat) + (lit_cl_center() + (dec_u64(cl2.center_idx as nat) + (lit_cl_radius() + (dec_u64(cl2.radius as nat) + (lit_cl_assignment() + (enc_u64_array_prefix(cl2.assignment@, cl2.assignment@.len() as int) + (lit_cl_brute() + (v2 + (lit_cl_memory() + (dec_u64(cl2.memory_used as nat) + (lit_cl_close())))))))))))) + r2);
    vstd::seq_lib::lemma_concat_associative(dec_u64(cl1.idx as nat), lit_cl_center() + (dec_u64(cl1.center_idx as nat) + (lit_cl_radius() + (dec_u64(cl1.radius as nat) + (lit_cl_assignment() + (enc_u64_array_prefix(cl1.assignment@, cl1.assignment@.len() as int) + (lit_cl_brute() + (v1 + (lit_cl_memory() + (dec_u64(cl1.memory_used as nat) + (lit_cl_close())))))))))), r1);
    vstd::seq_lib::lemma_concat_associative(dec_u64(cl2.idx as nat), lit_cl_center() + (dec_u64(cl2.center_idx as nat) + (lit_cl_radius() + (dec_u64(cl2.radius as nat) + (lit_cl_assignment() + (enc_u64_array_prefix(cl2.assignment@, cl2.assignment@.len() as int) + (lit_cl_brute() + (v2 + (lit_cl_memory() + (dec_u64(cl2.memory_used as nat) + (lit_cl_close())))))))))), r2);
    assert(((lit_cl_center() + (dec_u64(cl1.center_idx as nat) + (lit_cl_radius() + (dec_u64(cl1.radius as nat) + (lit_cl_assignment() + (enc_u64_array_prefix(cl1.assignment@, cl1.assignment@.len() as int) + (lit_cl_brute() + (v1 + (lit_cl_memory() + (dec_u64(cl1.memory_used as nat) + (lit_cl_close()))))))))))) + r1)[0] == 44);
    assert(((lit_cl_center() + (dec_u64(cl2.center_idx as nat) + (lit_cl_radius() + (dec_u64(cl2.radius as nat) + (lit_cl_assignment() + (enc_u64_array_prefix(cl2.assignment@, cl2.assignment@.len() as int) + (lit_cl_brute() + (v2 + (lit_cl_memory() + (dec_u64(cl2.memory_used as nat) + (lit_cl_close()))))))))))) + r2)[0] == 44);
    lemma_u64_split(cl1.idx as nat, (lit_cl_center() + (dec_u64(cl1.center_idx as nat) + (lit_cl_radius() + (dec_u64(cl1.radius as nat) + (lit_cl_assignment() + (enc_u64_array_prefix(cl1.assignment@, cl1.assignment@.len() as int) + (lit_cl_brute() + (v1 + (lit_cl_memory() + (dec_u64(cl1.memory_used as nat) + (lit_cl_close()))))))))))) + r1, cl2.idx as nat, (lit_cl_center() + (dec_u64(cl2.center_idx as nat) + (lit_cl_radius() + (dec_u64(cl2.radius as nat) + (lit_cl_assignment() + (enc_u64_array_prefix(cl2.assignment@, cl2.assignment@.len() as int) + (lit_cl_brute() + (v2 + (lit_cl_memory() + (dec_u64(cl2.memory_used as nat) + (lit_cl_close()))))))))))) + r2);
    vstd::seq_lib::lemma_concat_associative(lit_cl_center(), dec_u64(cl1.center_idx as nat) + (lit_cl_radius() + (dec_u64(cl1.radius as nat) + (lit_cl_assignment() + (enc_u64_array_prefix(cl1.assignment@, cl1.assignment@.len() as int) + (lit_cl_brute() + (v1 + (lit_cl_memory() + (dec_u64(cl1.memory_used as nat) + (lit_cl_close()))))))))), r1);
    vstd::seq_lib::lemma_concat_associative(lit_cl_center(), dec_u64(cl2.center_idx as nat) + (lit_cl_radius() + (dec_u64(cl2.radius as nat) + (lit_cl_assignment() + (enc_u64_array_prefix(cl2.assignment@, cl2.assignment@.len() as int) + (lit_cl_brute() + (v2 + (lit_cl_memory() + (dec_u64(cl2.memory_used as nat) + (lit_cl_close()))))))))), r2);
    lemma_cancel_left(lit_cl_center(), (dec_u64(cl1.center_idx as nat) + (lit_cl_radius() + (dec_u64(cl1.radius as nat) + (lit_cl_assignment() + (enc_u64_array_prefix(cl1.assignment@, cl1.assignment@.len() as int) + (lit_cl_brute() + (v1 + (lit_cl_memory() + (dec_u64(cl1.memory_used as nat) + (lit_cl_close())))))))))) + r1, (dec_u64(cl2.center_idx as nat) + (lit_cl_radius() + (dec_u64(cl2.radius as nat) + (lit_cl_assignment() + (enc_u64_array_prefix(cl2.assignment@, cl2.assignment@.len() as int) + (lit_cl_brute() + (v2 + (lit_cl_memory() + (dec_u64(cl2.memory_used as nat) + (lit_cl_close())))))))))) + r2);
    vstd::seq_lib::lemma_concat_associative(dec_u64(cl1.center_idx as nat), lit_cl_radius() + (dec_u64(cl1.radius as nat) + (lit_cl_assignment() + (enc_u64_array_prefix(cl1.assignment@, cl1.assignment@.len() as int) + (lit_cl_brute() + (v1 + (lit_cl_memory() + (dec_u64(cl1.memory_used as nat) + (lit_cl_close())))))))), r1);
    vstd::seq_lib::lemma_concat_associative(dec_u64(cl2.center_idx as nat), lit_cl_radius() + (dec_u64(cl2.radius as nat) + (lit_cl_assignment() + (enc_u64_array_prefix(cl2.assignment@, cl2.assignment@.len() as int) + (lit_cl_brute() + (v2 + (lit_cl_memory() + (dec_u64(cl2.memory_used as nat) + (lit_cl_close())))))))), r2);
    assert(((lit_cl_radius() + (dec_u64(cl1.radius as nat) + (lit_cl_assignment() + (enc_u64_array_prefix(cl1.assignment@, cl1.assignment@.len() as int) + (lit_cl_brute() + (v1 + (lit_cl_memory() + (dec_u64(cl1.memory_used as nat) + (lit_cl_close()))))))))) + r1)[0] == 44);
    assert(((lit_cl_radius() + (dec_u64(cl2.radius as nat) + (lit_cl_assignment() + (enc_u64_array_prefix(cl2.assignment@, cl2.assignment@.len() as int) + (lit_cl_brute() + (v2 + (lit_cl_memory() + (dec_u64(cl2.memory_used as nat) + (lit_cl_close()))))))))) + r2)[0] == 44);
    lemma_u64_split(cl1.center_idx as nat, (lit_cl_radius() + (dec_u64(cl1.radius as nat) + (lit_cl_assignment() + (enc_u64_array_prefix(cl1.assignment@, cl1.assignment@.len() as int) + (lit_cl_brute() + (v1 + (lit_cl_memory() + (dec_u64(cl1.memory_used as nat) + (lit_cl_close()))))))))) + r1, cl2.center_idx as nat, (lit_cl_radius() + (dec_u64(cl2.radius as nat) + (lit_cl_assignment() + (enc_u64_array_prefix(cl2.assignment@, cl2.assignment@.len() as int) + (lit_cl_brute() + (v2 + (lit_cl_memory() + (dec_u64(cl2.memory_used as nat) + (lit_cl_close()))))))))) + r2);
    vstd::seq_lib::lemma_concat_associative(lit_cl_radius(), dec_u64(cl1.radius as nat) + (lit_cl_assignment() + (enc_u64_array_prefix(cl1.assignment@, cl1.assignment@.len() as int) + (lit_cl_brute() + (v1 + (lit_cl_memory() + (dec_u64(cl1.memory_used as nat) + (lit_cl_close()))))))), r1);
    vstd::seq_lib::lemma_concat_associative(lit_cl_radius(), dec_u64(cl2.radius as nat) + (lit_cl_assignment() + (enc_u64_array_prefix(cl2.assignment@, cl2.assignment@.len() as int) + (lit_cl_brute() + (v2 + (lit_cl_memory() + (dec_u64(cl2.memory_used as nat) + (lit_cl_close()))))))), r2);
    lemma_cancel_left(lit_cl_radius(), (dec_u64(cl1.radius as nat) + (lit_cl_assignment() + (enc_u64_array_prefix(cl1.assignment@, cl1.assignment@.len() as int) + (lit_cl_brute() + (v1 + (lit_cl_memory() + (dec_u64(cl1.memory_used as nat) + (lit_cl_close())))))))) + r1, (dec_u64(cl2.radius as nat) + (lit_cl_assignment() + (enc_u64_array_prefix(cl2.assignment@, cl2.assignment@.len() as int) + (lit_cl_brute() + (v2 + (lit_cl_memory() + (dec_u64(cl2.memory_used as nat) + (lit_cl_close())))))))) + r2);
    vstd::seq_lib::lemma_concat_associative(dec_u64(cl1.radius as nat), lit_cl_assignment() + (enc_u64_array_prefix(cl1.assignment@, cl1.assignment@.len() as int) + (lit_cl_brute() + (v1 + (lit_cl_memory() + (dec_u64(cl1.memory_used as nat) + (lit_cl_close())))))), r1);
    vstd::seq_lib::lemma_concat_associative(dec_u64(cl2.radius as nat), lit_cl_assignment() + (enc_u64_array_prefix(cl2.assignment@, cl2.assignment@.len() as int) + (lit_cl_brute() + (v2 + (lit_cl_memory() + (dec_u64(cl2.memory_used as nat) + (lit_cl_close())))))), r2);
    assert(((lit_cl_assignment() + (enc_u64_array_prefix(cl1.assignment@, cl1.assignment@.len() as int) + (lit_cl_brute() + (v1 + (lit_cl_memory() + (dec_u64(cl1.memory_used as nat) + (lit_cl_close()))))))) + r1)[0] == 44);
    assert(((lit_cl_assignment() + (enc_u64_array_prefix(cl2.assignment@, cl2.assignment@.len() as int) + (lit_cl_brute() + (v2 + (lit_cl_memory() + (dec_u64(cl2.memory_used as nat) + (lit_cl_close()))))))) + r2)[0] == 44);
    lemma_u64_split(cl1.radius as nat, (lit_cl_assignment() + (enc_u64_array_prefix(cl1.assignment@, cl1.assignment@.len() as int) + (lit_cl_brute() + (v1 + (lit_cl_memory() + (dec_u64(cl1.memory_used as nat) + (lit_cl_close()))))))) + r1, cl2.radius as nat, (lit_cl_assignment() + (enc_u64_array_prefix(cl2.assignment@, cl2.assignment@.len() as int) + (lit_cl_brute() + (v2 + (lit_cl_memory() + (dec_u64(cl2.memory_used as nat) + (lit_cl_close()))))))) + r2);
    vstd::seq_lib::lemma_concat_associative(lit_cl_assignment(), enc_u64_array_prefix(cl1.assignment@, cl1.assignment@.len() as int) + (lit_cl_brute() + (v1 + (lit_cl_memory() + (dec_u64(cl1.memory_used as nat) + (lit_cl_close()))))), r1);
    vstd::seq_lib::lemma_concat_associative(lit_cl_assignment(), enc_u64_array_prefix(cl2.assignment@, cl2.assignment@.len() as int) + (lit_cl_brute() + (v2 + (lit_cl_memory() + (dec_u64(cl2.memory_used as nat) + (lit_cl_close()))))), r2);
    lemma_cancel_left(lit_cl_assignment(), (enc_u64_array_prefix(cl1.assignment@, cl1.assignment@.len() as int) + (lit_cl_brute() + (v1 + (lit_cl_memory() + (dec_u64(cl1.memory_used as nat) + (lit_cl_close())))))) + r1, (enc_u64_array_prefix(cl2.assignment@, cl2.assignment@.len() as int) + (lit_cl_brute() + (v2 + (lit_cl_memory() + (dec_u64(cl2.memory_used as nat) + (lit_cl_close())))))) + r2);
    vstd::seq_lib::lemma_concat_associative(enc_u64_array_prefix(cl1.assignment@, cl1.assignment@.len() as int), lit_cl_brute() + (v1 + (lit_cl_memory() + (dec_u64(cl1.memory_used as nat) + (lit_cl_close())))), r1);
    vstd::seq_lib::lemma_concat_associative(enc_u64_array_prefix(cl2.assignment@, cl2.assignment@.len() as int), lit_cl_brute() + (v2 + (lit_cl_memory() + (dec_u64(cl2.memory_used as nat) + (lit_cl_close())))), r2);
    assert(((lit_cl_brute() + (v1 + (lit_cl_memory() + (dec_u64(cl1.memory_used as nat) + (lit_cl_close()))))) + r1)[0] == 93);
    assert(((lit_cl_brute() + (v2 + (lit_cl_memory() + (dec_u64(cl2.memory_used as nat) + (lit_cl_close()))))) + r2)[0] == 93);
    lemma_arr_prefix_is_head(cl1.assignment@, cl1.assignment@.len() as int);
    lemma_arr_prefix_is_head(cl2.assignment@, cl2.assignment@.len() as int);
    assert(cl1.assignment@.take(cl1.assignment@.len() as int) =~= cl1.assignment@);
    assert(cl2.assignment@.take(cl2.assignment@.len() as int) =~= cl2.assignment@);
    lemma_arr_split(cl1.assignment@, (lit_cl_brute() + (v1 + (lit_cl_memory() + (dec_u64(cl1.memory_used as nat) + (lit_cl_close()))))) + r1, cl2.assignment@, (lit_cl_brute() + (v2 + (lit_cl_memory() + (dec_u64(cl2.memory_used as nat) + (lit_cl_close()))))) + r2);
    vstd::seq_lib::lemma_concat_associative(lit_cl_brute(), v1 + (lit_cl_memory() + (dec_u64(cl1.memory_used as nat) + (lit_cl_close()))), r1);
    vstd::seq_lib::lemma_concat_associative(lit_cl_brute(), v2 + (lit_cl_memory() + (dec_u64(cl2.memory_used as nat) + (lit_cl_close()))), r2);
    lemma_cancel_left(lit_cl_brute(), (v1 + (lit_cl_memory() + (dec_u64(cl1.memory_used as nat) + (lit_cl_close())))) + r1, (v2 + (lit_cl_memory() + (dec_u64(cl2.memory_used as nat) + (lit_cl_close())))) + r2);
    vstd::seq_lib::lemma_concat_associative(v1, lit_cl_memory() + (dec_u64(cl1.memory_used as nat) + (lit_cl_close())), r1);
    vstd::seq_lib::lemma_concat_associative(v2, lit_cl_memory() + (dec_u64(cl2.memory_used as nat) + (lit_cl_close())), r2);
    if cl1.brute_force != cl2.brute_force {
        assert(v1[0] != v2[0]);
        assert((v1 + ((lit_cl_memory() + (dec_u64(cl1.memory_used as nat) + (lit_cl_close()))) + r1))[0] == v1[0]);
        assert((v2 + ((lit_cl_memory() + (dec_u64(cl2.memory_used as nat) + (lit_cl_close()))) + r2))[0] == v2[0]);
        assert(false);
    }
    assert(v1 == v2);
    lemma_cancel_left(v1, (lit_cl_memory() + (dec_u64(cl1.memory_used as nat) + (lit_cl_close()))) + r1, (lit_cl_memory() + (dec_u64(cl2.memory_used as nat) + (lit_cl_close()))) + r2);
    vstd::seq_lib::lemma_concat_associative(lit_cl_memory(), dec_u64(cl1.memory_used as nat) + (lit_cl_close()), r1);
    vstd::seq_lib::lemma_concat_associative(lit_cl_memory(), dec_u64(cl2.memory_used as nat) + (lit_cl_close()), r2);
    lemma_cancel_left(lit_cl_memory(), (dec_u64(cl1.memory_used as nat) + (lit_cl_close())) + r1, (dec_u64(cl2.memory_used as nat) + (lit_cl_close())) + r2);
    vstd::seq_lib::lemma_concat_associative(dec_u64(cl1.memory_used as nat), lit_cl_close(), r1);
    vstd::seq_lib::lemma_concat_associative(dec_u64(cl2.memory_used as nat), lit_cl_close(), r2);
    assert(((lit_cl_close()) + r1)[0] == 125);
    assert(((lit_cl_close()) + r2)[0] == 125);
    lemma_u64_split(cl1.memory_used as nat, (lit_cl_close()) + r1, cl2.memory_used as nat, (lit_cl_close()) + r2);
    lemma_cancel_left(lit_cl_close(), r1, r2);
}

/// Front-recursive form of the cluster array body.
spec fn enc_cls_head(cs: Seq<ClusterCenter>) -> Seq<u8>
    decreases cs.len(),
{
    if cs.len() == 0 {
        Seq::empty()
    } else {
        enc_cluster_spec(cs[0]) + enc_cls_tail(cs.drop_first())
    }
}

spec fn enc_cls_tail(cs: Seq<ClusterCenter>) -> Seq<u8>
    decreases cs.len(),
{
    if cs.len() == 0 {
        Seq::empty()
    } else {
        lit_comma() + (enc_cluster_spec(cs[0]) + enc_cls_tail(cs.drop_first()))
    }
}

proof fn lemma_cls_tail_snoc(x: Seq<ClusterCenter>, e: ClusterCenter)
    ensures
        enc_cls_tail(x.push(e)) == enc_cls_tail(x) + (lit_comma() + enc_cluster_spec(e)),
    decreases x.len(),
{
    if x.len() == 0 {
        assert(x.push(e).drop_first() =~= Seq::<ClusterCenter>::empty());
        assert(x.push(e)[0] == e);
        assert(enc_cls_tail(Seq::<ClusterCenter>::empty()) == Seq::<u8>::empty());
        assert(enc_cls_tail(x.push(e))
            == lit_comma() + (enc_cluster_spec(e) + Seq::<u8>::empty()));
        assert(enc_cluster_spec(e) + Seq::<u8>::empty() =~= enc_cluster_spec(e));
        assert(enc_cls_tail(x) + (lit_comma() + enc_cluster_spec(e))
            =~= lit_comma() + enc_cluster_spec(e));
    } else {
        assert(x.push(e).drop_first() =~= x.drop_first().push(e));
        lemma_cls_tail_snoc(x.drop_first(), e);
        let d0 = enc_cluster_spec(x[0]);
        let t = enc_cls_tail(x.drop_first());
        let se = lit_comma() + enc_cluster_spec(e);
        assert(enc_cls_tail(x.push(e)) == lit_comma() + (d0 + (t + se)));
        vstd::seq_lib::lemma_concat_associative(d0, t, se);
        vstd::seq_lib::lemma_concat_associative(lit_comma(), d0 + t, se);
        assert(enc_cls_tail(x) + se == (lit_comma() + (d0 + t)) + se);
    }
}

proof fn lemma_cls_head_snoc(x: Seq<ClusterCenter>, e: ClusterCenter)
    requires
        x.len() >= 1,
    ensures
        enc_cls_head(x.push(e)) == enc_cls_head(x) + (lit_comma() + enc_cluster_spec(e)),
{
    assert(x.push(e).drop_first() =~= x.drop_first().push(e));
    lemma_cls_tail_snoc(x.drop_first(), e);
    let d0 = enc_cluster_spec(x[0]);
    let t = enc_cls_tail(x.drop_first());
    let se = lit_comma() + enc_cluster_spec(e);
    assert(enc_cls_head(x.push(e)) == d0 + (t + se));
    vstd::seq_lib::lemma_concat_associative(d0, t, se);
}

/// The cluster array body the encoder emits equals its front-recursive form.
proof fn lemma_cls_prefix_is_head(cs: Seq<ClusterCenter>, m: int)
    requires
        0 <= m <= cs.len(),
    ensures
        enc_clusters_prefix(cs, m) == enc_cls_head(cs.take(m)),
    decreases m,
{
    if m <= 0 {
        assert(cs.take(0) =~= Seq::<ClusterCenter>::empty());
    } else if m == 1 {
        assert(cs.take(1) =~= Seq::<ClusterCenter>::empty().push(cs[0]));
        assert(cs.take(1).drop_first() =~= Seq::<ClusterCenter>::empty());
        assert(enc_cls_head(cs.take(1)) == enc_cluster_spec(cs[0]) + Seq::<u8>::empty());
        assert(enc_cluster_spec(cs[0]) + Seq::<u8>::empty() =~= enc_cluster_spec(cs[0]));
    } else {
        lemma_cls_prefix_is_head(cs, m - 1);
        assert(cs.take(m) =~= cs.take(m - 1).push(cs[m - 1]));
        lemma_cls_head_snoc(cs.take(m - 1), cs[m - 1]);
        let p = enc_clusters_prefix(cs, m - 1);
        let se = lit_comma() + enc_cluster_spec(cs[m - 1]);
        assert(enc_clusters_prefix(cs, m)
            == (p + lit_comma()) + enc_cluster_spec(cs[m - 1]));
        vstd::seq_lib::lemma_concat_associative(p, lit_comma(), enc_cluster_spec(cs[m - 1]));
    }
}

/// A cluster record encoding starts with an opening brace.
proof fn lemma_cluster_first_byte(cl: ClusterCenter)
    ensures
        enc_cluster_spec(cl).len() > 0,
        enc_cluster_spec(cl)[0] == 123,
{
    assert(enc_cluster_spec(cl)[0] == lit_cl_open()[0]);
}

/// An encoded cluster array followed by a closing bracket is read back
/// uniquely, record for record.
proof fn lemma_cls_split(
    cs1: Seq<ClusterCenter>,
    r1: Seq<u8>,
    cs2: Seq<ClusterCenter>,
    r2: Seq<u8>,
)
    requires
        enc_cls_head(cs1) + r1 == enc_cls_head(cs2) + r2,
        r1.len() > 0 && r1[0] == 93,
        r2.len() > 0 && r2[0] == 93,
    ensures
        cs1.len() == cs2.len(),
        forall|i: int| 0 <= i < cs1.len() ==> cluster_eqv(#[trigger] cs1[i], cs2[i]),
        r1 == r2,
    decreases cs1.len(),
{
    if cs1.len() == 0 && cs2.len() == 0 {
        assert(enc_cls_head(cs1) + r1 =~= r1);
        assert(enc_cls_head(cs2) + r2 =~= r2);
    } else if cs1.len() == 0 {
        lemma_cluster_first_byte(cs2[0]);
        assert(enc_cls_head(cs1) + r1 =~= r1);
        assert((enc_cls_head(cs2) + r2)[0] == enc_cluster_spec(cs2[0])[0]);
        assert(false);
    } else if cs2.len() == 0 {
        lemma_cluster_first_byte(cs1[0]);
        assert(enc_cls_head(cs2) + r2 =~= r2);
        assert((enc_cls_head(cs1) + r1)[0] == enc_cluster_spec(cs1[0])[0]);
        assert(false);
    } else {
        let t1 = enc_cls_tail(cs1.drop_first());
        let t2 = enc_cls_tail(cs2.drop_first());
        vstd::seq_lib::lemma_concat_associative(enc_cluster_spec(cs1[0]), t1, r1);
        vstd::seq_lib::lemma_concat_associative(enc_cluster_spec(cs2[0]), t2, r2);
        lemma_cluster_split(cs1[0], t1 + r1, cs2[0], t2 + r2);
        if cs1.drop_first().len() == 0 && cs2.drop_first().len() == 0 {
            assert(t1 + r1 =~= r1);
            assert(t2 + r2 =~= r2);
        } else if cs1.drop_first().len() == 0 {
            assert(t1 + r1 =~= r1);
            assert((t2 + r2)[0] == lit_comma()[0]);
            assert(false);
        } else if cs2.drop_first().len() == 0 {
            assert(t2 + r2 =~= r2);
            assert((t1 + r1)[0] == lit_comma()[0]);
            assert(false);
        } else {
            let h1 = enc_cls_head(cs1.drop_first());
            let h2 = enc_cls_head(cs2.drop_first());
            assert(t1 == lit_comma() + h1);
            assert(t2 == lit_comma() + h2);
            vstd::seq_lib::lemma_concat_associative(lit_comma(), h1, r1);
            vstd::seq_lib::lemma_concat_associative(lit_comma(), h2, r2);
            lemma_cancel_left(lit_comma(), h1 + r1, h2 + r2);
            lemma_cls_split(cs1.drop_first(), r1, cs2.drop_first(), r2);
        }
        assert forall|i: int| 0 <= i < cs1.len() implies
            cluster_eqv(#[trigger] cs1[i], cs2[i]) by {
            if i > 0 {
                assert(cs1[i] == cs1.drop_first()[i - 1]);
                assert(cs2[i] == cs2.drop_first()[i - 1]);
            }
        }
    }
}

/// The container encoding is injective: equal canonical bytes mean equal
/// configurations (field for field) and pointwise equal cluster records.
#[verifier::rlimit(100)]
pub proof fn lemma_container_inj(
    cfg1: Config,
    cls1: Seq<ClusterCenter>,
    cfg2: Config,
    cls2: Seq<ClusterCenter>,
)
    requires
        enc_container_spec(cfg1, cls1) == enc_container_spec(cfg2, cls2),
        name_serializable(cfg1.dataset_name@),
        name_serializable(cfg2.dataset_name@),
    ensures
        cfg1.num_tables == cfg2.num_tables,
        cfg1.num_clusters_factor == cfg2.num_clusters_factor,
        cfg1.k == cfg2.k,
        cfg1.delta == cfg2.delta,
        cfg1.dataset_name@ == cfg2.dataset_name@,
        cfg1.metrics_output == cfg2.metrics_output,
        cls1.len() == cls2.len(),
        forall|i: int| 0 <= i < cls1.len() ==> cluster_eqv(#[trigger] cls1[i], cls2[i]),
{
    let u1 = lit_ct_clusters() + (enc_clusters_prefix(cls1, cls1.len() as int) + lit_ct_close());
    let u2 = lit_ct_clusters() + (enc_clusters_prefix(cls2, cls2.len() as int) + lit_ct_close());
    lemma_cancel_left(lit_ct_open(), enc_config_spec(cfg1) + u1, enc_config_spec(cfg2) + u2);
    lemma_config_split(cfg1, u1, cfg2, u2);
    lemma_cancel_left(
        lit_ct_clusters(),
        enc_clusters_prefix(cls1, cls1.len() as int) + lit_ct_close(),
        enc_clusters_prefix(cls2, cls2.len() as int) + lit_ct_close(),
    );
    lemma_cls_prefix_is_head(cls1, cls1.len() as int);
    lemma_cls_prefix_is_head(cls2, cls2.len() as int);
    assert(cls1.take(cls1.len() as int) =~= cls1);
    assert(cls2.take(cls2.len() as int) =~= cls2);
    assert(lit_ct_close()[0] == 93 && lit_ct_close().len() > 0);
    lemma_cls_split(cls1, lit_ct_close(), cls2, lit_ct_close());
}


/// Equal fields give equal configuration encodings.
pub proof fn lemma_enc_config_congruent(a: Config, b: Config)
    requires
        config_eqv(a, b),
    ensures
        enc_config_spec(a) == enc_config_spec(b),
{
}

/// Equal fields give equal cluster record encodings.
pub proof fn lemma_enc_cluster_congruent(a: ClusterCenter, b: ClusterCenter)
    requires
        cluster_eqv(a, b),
    ensures
        enc_cluster_spec(a) == enc_cluster_spec(b),
{
}

/// Pointwise equal fields give equal cluster array encodings.
pub proof fn lemma_enc_clusters_congruent(cs1: Seq<ClusterCenter>, cs2: Seq<ClusterCenter>, m: int)
    requires
        cs1.len() == cs2.len(),
        forall|i: int| 0 <= i < cs1.len() ==> cluster_eqv(#[trigger] cs1[i], cs2[i]),
        0 <= m <= cs1.len(),
    ensures
        enc_clusters_prefix(cs1, m) == enc_clusters_prefix(cs2, m),
    decreases m,
{
    if m <= 0 {
    } else {
        lemma_enc_clusters_congruent(cs1, cs2, m - 1);
        lemma_enc_cluster_congruent(cs1[m - 1], cs2[m - 1]);
    }
}

/// Pointwise equal states give equal container encodings.
pub proof fn lemma_enc_container_congruent(
    cfg1: Config,
    cls1: Seq<ClusterCenter>,
    cfg2: Config,
    cls2: Seq<ClusterCenter>,
)
    requires
        config_eqv(cfg1, cfg2),
        cls1.len() == cls2.len(),
        forall|i: int| 0 <= i < cls1.len() ==> cluster_eqv(#[trigger] cls1[i], cls2[i]),
    ensures
        enc_container_spec(cfg1, cls1) == enc_container_spec(cfg2, cls2),
{
    lemma_enc_config_congruent(cfg1, cfg2);
    lemma_enc_clusters_congruent(cls1, cls2, cls1.len() as int);
}

} // verus!
