//! Replay schedule configuration, chaos models, and the deterministic SplitMix64
//! generator that drives them.

use vstd::prelude::*;
use crate::protocol::bytes::{be_u16, read_be_u16};
use crate::transport::sched_types::{sched_order, sort_events, ReplaySchedule, SchedEvent, SchedKind};

verus! {

/// One SplitMix64 output for a state that has just been advanced to `s`.
pub open spec fn splitmix_mix(s: u64) -> u64 {
    let z1 = (s ^ (s >> 30u64)).wrapping_mul(0xBF58476D1CE4E5B9);
    let z2 = (z1 ^ (z1 >> 27u64)).wrapping_mul(0x94D049BB133111EB);
    z2 ^ (z2 >> 31u64)
}

/// The SplitMix64 state increment.
pub open spec fn splitmix_step(s: u64) -> u64 {
    s.wrapping_add(0x9E3779B97F4A7C15)
}

#[derive(Debug, Clone)]
pub struct SplitMix64 {
    pub state: u64,
}

impl SplitMix64 {
    pub fn new(seed: u64) -> (r: Self)
        ensures
            r.state == seed,
    {
        SplitMix64 { state: seed }
    }

    /// Advances the state and returns the next output.
    pub fn next_u64(&mut self) -> (r: u64)
        ensures
            final(self).state == splitmix_step(old(self).state),
            r == splitmix_mix(final(self).state),
    {
        self.state = self.state.wrapping_add(0x9E3779B97F4A7C15);
        let mut z = self.state;
        z = (z ^ (z >> 30u64)).wrapping_mul(0xBF58476D1CE4E5B9);
        z = (z ^ (z >> 27u64)).wrapping_mul(0x94D049BB133111EB);
        z ^ (z >> 31u64)
    }
}


/// The lengths of the complete length-prefixed message blocks of `gt` from `pos` on; the
/// scan stops at the first block that is cut short.
pub open spec fn scan_lens(gt: Seq<u8>, pos: int) -> Seq<u16>
    decreases gt.len() - pos,
{
    if pos < 0 || pos + 2 > gt.len() {
        Seq::empty()
    } else {
        let len = be_u16(gt[pos], gt[pos + 1]);
        if pos + 2 + len > gt.len() {
            Seq::empty()
        } else {
            seq![len] + scan_lens(gt, pos + 2 + len)
        }
    }
}

/// Every message scanned takes at least two bytes.
pub proof fn lemma_scan_lens_len(gt: Seq<u8>, pos: int)
    requires
        0 <= pos <= gt.len(),
    ensures
        2 * scan_lens(gt, pos).len() <= gt.len() - pos,
    decreases gt.len() - pos,
{
    if pos + 2 <= gt.len() {
        let len = be_u16(gt[pos], gt[pos + 1]);
        if pos + 2 + len <= gt.len() {
            lemma_scan_lens_len(gt, pos + 2 + len);
        }
    }
}

/// The message lengths of the ground-truth stream.
fn scan_messages(gt: &[u8]) -> (r: Vec<u16>)
    ensures
        r@ == scan_lens(gt@, 0),
{
    let mut lens: Vec<u16> = Vec::new();
    let mut pos: usize = 0;
    while gt.len() - pos >= 2
        invariant
            pos <= gt@.len(),
            lens@ + scan_lens(gt@, pos as int) == scan_lens(gt@, 0),
        decreases gt.len() - pos,
    {
        let len = read_be_u16(gt, pos);
        if len as usize > gt.len() - pos - 2 {
            assert(scan_lens(gt@, pos as int) =~= Seq::<u16>::empty());
            assert(lens@ =~= lens@ + Seq::<u16>::empty());
            return lens;
        }
        proof {
            assert(scan_lens(gt@, pos as int) == seq![len] + scan_lens(gt@, pos + 2 + len));
            assert(lens@.push(len) + scan_lens(gt@, pos + 2 + len) =~= lens@ + scan_lens(gt@, pos as int));
        }
        lens.push(len);
        pos = pos + 2 + len as usize;
    }
    assert(scan_lens(gt@, pos as int) =~= Seq::<u16>::empty());
    assert(lens@ =~= lens@ + Seq::<u16>::empty());
    lens
}

/// The message count an MTU-bound packet from message `cur` takes, having taken `c`
/// messages whose blocks total `acc` bytes: the first block always, then blocks while the
/// payload stays within `max_payload`.
pub open spec fn mtu_count(lens: Seq<u16>, cur: int, max_payload: int, c: int, acc: int) -> int
    decreases lens.len() - cur - c,
{
    if cur + c < 0 || cur + c >= lens.len() {
        c
    } else if c > 0 && acc + 2 + lens[cur + c] > max_payload {
        c
    } else {
        mtu_count(lens, cur, max_payload, c + 1, acc + 2 + lens[cur + c])
    }
}

/// The payload budget of an MTU-bound packet.
pub open spec fn mtu_payload(mtu: u16) -> int {
    if mtu >= 20 {
        mtu - 20
    } else {
        50
    }
}

/// Whether a packetization mode can be applied: a seeded range needs `min <= max` and a
/// span that fits the draw.
pub open spec fn packetize_ok(mode: Packetize) -> bool {
    match mode {
        Packetize::SeededRange { min, max } => min <= max && max - min < 65535,
        _ => true,
    }
}

/// The message count of the packet that starts at message `cur` (at least one, never
/// more than the messages left, which count as at most `u16::MAX`), and the generator
/// state after choosing it (a seeded range draws once).
pub open spec fn packet_count(mode: Packetize, lens: Seq<u16>, cur: int, prng: u64) -> (int, u64) {
    let rem: u16 = if lens.len() - cur < 65535 { (lens.len() - cur) as u16 } else { 65535 };
    let (c, p2) = match mode {
        Packetize::Fixed(k) => (if k < rem { k as int } else { rem as int }, prng),
        Packetize::MtuBound(mtu) => (mtu_count(lens, cur, mtu_payload(mtu), 0, 0), prng),
        Packetize::SeededRange { min, max } => {
            let s = splitmix_step(prng);
            let draw = min + splitmix_mix(s) % ((max - min + 1) as u64);
            (if draw < rem { draw } else { rem as int }, s)
        },
    };
    (if c < 1 { 1 } else { c }, p2)
}

/// The packets `(first message, count)` cut from message `cur` on, and the generator state
/// after cutting them.
pub open spec fn packetize(mode: Packetize, lens: Seq<u16>, cur: int, prng: u64) -> (Seq<(u64, u16)>, u64)
    decreases lens.len() - cur,
{
    if cur < 0 || cur >= lens.len() {
        (Seq::empty(), prng)
    } else {
        let pc = packet_count(mode, lens, cur, prng);
        if pc.0 < 1 || cur + pc.0 > lens.len() {
            (Seq::empty(), prng)
        } else {
            let rest = packetize(mode, lens, cur + pc.0, pc.1);
            (seq![(cur as u64, pc.0 as u16)] + rest.0, rest.1)
        }
    }
}

proof fn lemma_mtu_count_bound(lens: Seq<u16>, cur: int, max_payload: int, c: int, acc: int)
    requires
        0 <= cur,
        0 <= c,
        cur + c <= lens.len(),
        0 <= max_payload <= 65515,
        c > 1 ==> 2 * c <= acc <= max_payload,
        c == 1 ==> acc >= 2,
        c == 0 ==> acc == 0,
    ensures
        c <= mtu_count(lens, cur, max_payload, c, acc) <= lens.len() - cur,
        mtu_count(lens, cur, max_payload, c, acc) <= 32768 || mtu_count(lens, cur, max_payload, c, acc) == c,
    decreases lens.len() - cur - c,
{
    if cur + c < lens.len() && !(c > 0 && acc + 2 + lens[cur + c] > max_payload) {
        lemma_mtu_count_bound(lens, cur, max_payload, c + 1, acc + 2 + lens[cur + c]);
    }
}

/// A packet takes at least one message and no more than remain.
proof fn lemma_packet_count_bound(mode: Packetize, lens: Seq<u16>, cur: int, prng: u64)
    requires
        0 <= cur < lens.len(),
        packetize_ok(mode),
    ensures
        1 <= packet_count(mode, lens, cur, prng).0 <= lens.len() - cur,
        packet_count(mode, lens, cur, prng).0 <= 65535,
{
    let x = (lens.len() - cur) as usize;
    assert(x as u16 <= x) by (bit_vector);
    if let Packetize::MtuBound(mtu) = mode {
        lemma_mtu_count_bound(lens, cur, mtu_payload(mtu), 0, 0);
    }
}

/// The number of messages of an MTU-bound packet from message `cur`.
fn mtu_count_exec(lens: &Vec<u16>, cur: usize, mtu: u16) -> (r: u16)
    requires
        cur < lens@.len(),
    ensures
        r == mtu_count(lens@, cur as int, mtu_payload(mtu), 0, 0),
{
    let max_payload: u32 = if mtu >= 20 {
        (mtu - 20) as u32
    } else {
        50
    };
    let n = lens.len();
    let mut acc: u32 = 0;
    let mut c: usize = 0;
    while cur + c < n && (c == 0 || acc + 2 + (lens[cur + c] as u32) <= max_payload)
        invariant
            n == lens@.len(),
            cur < n,
            cur + c <= n,
            max_payload == mtu_payload(mtu),
            max_payload <= 65515,
            c > 1 ==> 2 * c <= acc <= max_payload,
            c == 1 ==> 2 <= acc <= 65537,
            c == 0 ==> acc == 0,
            mtu_count(lens@, cur as int, max_payload as int, 0, 0) == mtu_count(
                lens@,
                cur as int,
                max_payload as int,
                c as int,
                acc as int,
            ),
        decreases n - cur - c,
    {
        acc = acc + 2 + lens[cur + c] as u32;
        c = c + 1;
    }
    c as u16
}

/// The message count of the next packet (see [`packet_count`]).
fn packet_count_exec(mode: Packetize, lens: &Vec<u16>, cur: usize, prng: &mut SplitMix64) -> (r: u16)
    requires
        cur < lens@.len(),
        packetize_ok(mode),
    ensures
        r as int == packet_count(mode, lens@, cur as int, old(prng).state).0,
        final(prng).state == packet_count(mode, lens@, cur as int, old(prng).state).1,
{
    proof {
        lemma_packet_count_bound(mode, lens@, cur as int, prng.state);
        if let Packetize::MtuBound(mtu) = mode {
            lemma_mtu_count_bound(lens@, cur as int, mtu_payload(mtu), 0, 0);
        }
    }
    let left = lens.len() - cur;
    let rem: u16 = if left < 65535 { left as u16 } else { 65535 };
    let count: u16 = match mode {
        Packetize::Fixed(k) => if k < rem {
            k
        } else {
            rem
        },
        Packetize::MtuBound(mtu) => mtu_count_exec(lens, cur, mtu),
        Packetize::SeededRange { min, max } => {
            let range = (max - min + 1) as u64;
            let draw = min + (prng.next_u64() % range) as u16;
            if draw < rem {
                draw
            } else {
                rem
            }
        },
    };
    if count < 1 {
        1
    } else {
        count
    }
}

/// Cuts the scanned messages into packets.
fn packetize_exec(mode: Packetize, lens: &Vec<u16>, prng: &mut SplitMix64) -> (r: Vec<(u64, u16)>)
    requires
        packetize_ok(mode),
    ensures
        (r@, final(prng).state) == packetize(mode, lens@, 0, old(prng).state),
{
    let mut packets: Vec<(u64, u16)> = Vec::new();
    let mut cur: usize = 0;
    let n = lens.len();
    while cur < n
        invariant
            n == lens@.len(),
            cur <= n,
            packetize_ok(mode),
            packetize(mode, lens@, 0, old(prng).state) == (
                packets@ + packetize(mode, lens@, cur as int, prng.state).0,
                packetize(mode, lens@, cur as int, prng.state).1,
            ),
        decreases n - cur,
    {
        proof {
            lemma_packet_count_bound(mode, lens@, cur as int, prng.state);
        }
        let ghost p0 = prng.state;
        let c = packet_count_exec(mode, lens, cur, prng);
        proof {
            let rest = packetize(mode, lens@, cur + c, prng.state).0;
            assert(packetize(mode, lens@, cur as int, p0).0 == seq![(cur as u64, c)] + rest);
            assert(packets@.push((cur as u64, c)) + rest =~= packets@ + (seq![(cur as u64, c)] + rest));
        }
        packets.push((cur as u64, c));
        cur = cur + c as usize;
    }
    assert(packets@ =~= packets@ + Seq::<(u64, u16)>::empty());
    packets
}

#[derive(Debug, Clone, Copy, PartialEq, Eq, Structural)]
pub enum Packetize {
    Fixed(u16),
    MtuBound(u16),
    SeededRange { min: u16, max: u16 },
}

#[derive(Debug, Clone, Copy, PartialEq, Eq, Structural)]
pub enum LossModel {
    /// No loss.
    NoLoss,
    /// Drop probability in parts per thousand.
    Bernoulli { p_pm: u32 },
    GilbertElliott { p_g2b_pm: u32, p_b2g_pm: u32, p_drop_good_pm: u32, p_drop_bad_pm: u32 },
}

#[derive(Debug, Clone, Copy, PartialEq, Eq, Structural)]
pub enum DelayModel {
    /// No delay.
    NoDelay,
    GaussianApprox { mean_ns: i64, sigma_ns: u64 },
}

#[derive(Debug, Clone, Copy, PartialEq, Eq, Structural)]
pub struct DropRange {
    pub seq_from: u64,
    pub seq_to_incl: u64,
    /// Bit 0 = feed A, bit 1 = feed B.
    pub feed_mask: u8,
}

#[derive(Debug, Clone)]
pub struct ReplayConfig {
    pub seed_a: u64,
    pub seed_b: u64,
    pub msgs_per_packet: Packetize,
    pub loss: [LossModel; 2],
    pub delay: [DelayModel; 2],
    pub base_rate_msg_per_sec: u64,
    pub heartbeat_interval_ns: u64,
    pub guarantee_coverage: bool,
    pub scripted_drops: Vec<DropRange>,
    pub session_change_at_msg: Option<u64>,
    /// 1 = A, 2 = B, 3 = both.
    pub feeds_enabled: u8,
}

impl Default for ReplayConfig {
    fn default() -> (c: Self)
        ensures
            c.seed_a == 0x1234_5678_9ABC_DEF0,
            c.seed_b == 0x0FED_CBA9_8765_4321,
            c.msgs_per_packet == Packetize::Fixed(10),
            c.loss@ == seq![LossModel::NoLoss, LossModel::NoLoss],
            c.delay@ == seq![DelayModel::NoDelay, DelayModel::NoDelay],
            c.base_rate_msg_per_sec == 1_000_000,
            c.heartbeat_interval_ns == 1_000_000_000,
            c.guarantee_coverage,
            c.scripted_drops@.len() == 0,
            c.session_change_at_msg is None,
            c.feeds_enabled == 3,
    {
        let c = ReplayConfig {
            seed_a: 0x1234_5678_9ABC_DEF0,
            seed_b: 0x0FED_CBA9_8765_4321,
            msgs_per_packet: Packetize::Fixed(10),
            loss: [LossModel::NoLoss, LossModel::NoLoss],
            delay: [DelayModel::NoDelay, DelayModel::NoDelay],
            base_rate_msg_per_sec: 1_000_000,
            heartbeat_interval_ns: 1_000_000_000,
            guarantee_coverage: true,
            scripted_drops: Vec::new(),
            session_change_at_msg: None,
            feeds_enabled: 3,
        };
        assert(c.loss@ =~= seq![LossModel::NoLoss, LossModel::NoLoss]);
        assert(c.delay@ =~= seq![DelayModel::NoDelay, DelayModel::NoDelay]);
        c
    }
}


/// The bit of feed `f` (0 = A, 1 = B) in `feeds_enabled` and in drop masks.
pub open spec fn feed_bit(f: int) -> u8 {
    if f == 0 {
        1u8
    } else {
        2u8
    }
}

/// Whether drop range `d` covers feed `f` and overlaps sequence numbers
/// `first_seq..=end_seq`.
pub open spec fn drop_hits(d: DropRange, f: int, first_seq: int, end_seq: int) -> bool {
    (d.feed_mask & feed_bit(f)) != 0 && !(end_seq < d.seq_from || first_seq > d.seq_to_incl)
}

/// Whether some scripted drop range removes the packet from feed `f`.
pub open spec fn scripted_hit(drops: Seq<DropRange>, f: int, first_seq: int, end_seq: int) -> bool {
    exists|i: int| 0 <= i < drops.len() && #[trigger] drop_hits(drops[i], f, first_seq, end_seq)
}

/// The loss decision of feed `f` for a packet: whether it is dropped, the feed's generator
/// state after the draws, and whether its Gilbert-Elliott channel is in the bad state
/// afterwards. A disabled feed or a scripted drop draws nothing.
pub open spec fn feed_loss(cfg: ReplayConfig, f: int, first_seq: int, end_seq: int, prng: u64, bad: bool) -> (
    bool,
    u64,
    bool,
) {
    if cfg.feeds_enabled & feed_bit(f) == 0 {
        (true, prng, bad)
    } else if scripted_hit(cfg.scripted_drops@, f, first_seq, end_seq) {
        (true, prng, bad)
    } else {
        match cfg.loss@[f] {
            LossModel::NoLoss => (false, prng, bad),
            LossModel::Bernoulli { p_pm } => {
                let s = splitmix_step(prng);
                (((splitmix_mix(s) % 1000) as u32) < p_pm, s, bad)
            },
            LossModel::GilbertElliott { p_g2b_pm, p_b2g_pm, p_drop_good_pm, p_drop_bad_pm } => {
                let s1 = splitmix_step(prng);
                let drop_p = if bad {
                    p_drop_bad_pm
                } else {
                    p_drop_good_pm
                };
                let s2 = splitmix_step(s1);
                let t = (splitmix_mix(s2) % 1000) as u32;
                let bad2 = if bad {
                    !(t < p_b2g_pm)
                } else {
                    t < p_g2b_pm
                };
                (((splitmix_mix(s1) % 1000) as u32) < drop_p, s2, bad2)
            },
        }
    }
}

/// The Gilbert-Elliott loss law: the state a packet is drawn in decides its drop
/// probability. A packet drawn in the good state is dropped iff the first draw modulo
/// 1000 is below `p_drop_good_pm` (so never when that is 0), in the bad state iff below
/// `p_drop_bad_pm` (so always when that is 1000 or more); the second draw then moves the
/// channel, from good to bad below `p_g2b_pm` and from bad to good below `p_b2g_pm`.
pub proof fn law_gilbert_elliott_drop(cfg: ReplayConfig, f: int, first_seq: int, end_seq: int, prng: u64, bad: bool)
    requires
        0 <= f < 2,
        cfg.feeds_enabled & feed_bit(f) != 0,
        !scripted_hit(cfg.scripted_drops@, f, first_seq, end_seq),
        cfg.loss@[f] is GilbertElliott,
    ensures
        ({
            let (dropped, p2, bad2) = feed_loss(cfg, f, first_seq, end_seq, prng, bad);
            let lm = cfg.loss@[f];
            let d1 = splitmix_mix(splitmix_step(prng)) % 1000;
            let d2 = splitmix_mix(splitmix_step(splitmix_step(prng))) % 1000;
            &&& !bad ==> (dropped <==> d1 < lm->p_drop_good_pm)
            &&& bad ==> (dropped <==> d1 < lm->p_drop_bad_pm)
            &&& !bad && lm->p_drop_good_pm == 0 ==> !dropped
            &&& bad && lm->p_drop_bad_pm >= 1000 ==> dropped
            &&& p2 == splitmix_step(splitmix_step(prng))
            &&& bad2 == (if bad { d2 >= lm->p_b2g_pm } else { d2 < lm->p_g2b_pm })
        }),
{
}

/// The Bernoulli loss law: a packet is dropped iff one draw modulo 1000 is below the
/// rate, so a rate of 0 never drops and one of 1000 or more always does; the channel
/// state is untouched.
pub proof fn law_bernoulli_drop(cfg: ReplayConfig, f: int, first_seq: int, end_seq: int, prng: u64, bad: bool)
    requires
        0 <= f < 2,
        cfg.feeds_enabled & feed_bit(f) != 0,
        !scripted_hit(cfg.scripted_drops@, f, first_seq, end_seq),
        cfg.loss@[f] is Bernoulli,
    ensures
        ({
            let (dropped, p2, bad2) = feed_loss(cfg, f, first_seq, end_seq, prng, bad);
            let d = splitmix_mix(splitmix_step(prng)) % 1000;
            &&& dropped <==> d < cfg.loss@[f]->p_pm
            &&& cfg.loss@[f]->p_pm == 0 ==> !dropped
            &&& cfg.loss@[f]->p_pm >= 1000 ==> dropped
            &&& p2 == splitmix_step(prng)
            &&& bad2 == bad
        }),
{
}

/// The generator state after `n` draws.
pub open spec fn splitmix_steps(s: u64, n: nat) -> u64
    decreases n,
{
    if n == 0 {
        s
    } else {
        splitmix_steps(splitmix_step(s), (n - 1) as nat)
    }
}

/// `base` moved by `delay` nanoseconds, saturating at both ends of `u64`.
pub open spec fn release_at(base: u64, delay: i64) -> u64 {
    if base + delay > u64::MAX {
        u64::MAX
    } else if base + delay < 0 {
        0
    } else {
        (base + delay) as u64
    }
}

/// The sequence number of the first message of a packet that starts at ground-truth
/// message `first_msg`; numbering restarts at the session split.
pub open spec fn first_seq_of(split: Option<u64>, first_msg: u64) -> int {
    match split {
        Some(m) => if first_msg >= m {
            first_msg - m + 1
        } else {
            first_msg + 1
        },
        None => first_msg + 1,
    }
}

/// The state of the schedule planner: both feeds' generators and channel states, the
/// events so far, and the Gaussian delay requests `(mean, sigma, generator state)` made
/// so far (request `k` is answered by delay `k`).
pub struct PlanState {
    pub pa: u64,
    pub pb: u64,
    pub bad_a: bool,
    pub bad_b: bool,
    pub events: Seq<SchedEvent>,
    pub reqs: Seq<(i64, u64, u64)>,
}

/// Delivers a packet on `feed` under delay model `delay`: the generator state after, the
/// events with the packet's event appended, and the delay requests after.
pub open spec fn deliver(
    delay: DelayModel,
    base: u64,
    feed: u8,
    kind: SchedKind,
    prng: u64,
    events: Seq<SchedEvent>,
    reqs: Seq<(i64, u64, u64)>,
    ds: Seq<i64>,
) -> (u64, Seq<SchedEvent>, Seq<(i64, u64, u64)>) {
    match delay {
        DelayModel::NoDelay => (prng, events.push(SchedEvent { release_vt: base, feed, kind }), reqs),
        DelayModel::GaussianApprox { mean_ns, sigma_ns } => (
            splitmix_steps(prng, 12),
            events.push(SchedEvent { release_vt: release_at(base, ds[reqs.len() as int]), feed, kind }),
            reqs.push((mean_ns, sigma_ns, prng)),
        ),
    }
}

/// The loss decisions for a packet `(first message, count)`: whether feed A and feed B
/// drop it, and both feeds' generator and channel states after. When both enabled feeds
/// lose it and coverage is guaranteed, a draw on feed A picks the feed that keeps it.
#[verifier::opaque]
pub open spec fn packet_losses(cfg: ReplayConfig, pkt: (u64, u16), pa: u64, pb: u64, bad_a: bool, bad_b: bool) -> (
    bool,
    bool,
    u64,
    u64,
    bool,
    bool,
) {
    let fs = first_seq_of(cfg.session_change_at_msg, pkt.0);
    let es = fs + pkt.1 - 1;
    let l0 = feed_loss(cfg, 0, fs, es, pa, bad_a);
    let l1 = feed_loss(cfg, 1, fs, es, pb, bad_b);
    let cover = cfg.guarantee_coverage && l0.0 && l1.0 && cfg.feeds_enabled & 1u8 != 0
        && cfg.feeds_enabled & 2u8 != 0;
    let pa2 = if cover {
        splitmix_step(l0.1)
    } else {
        l0.1
    };
    let pick = splitmix_mix(pa2) & 1u64;
    (l0.0 && !(cover && pick == 0), l1.0 && !(cover && pick == 1), pa2, l1.1, l0.2, l1.2)
}

/// Plans one packet `(first message, count)`: its loss decisions, then an event on each
/// feed that keeps it, released at the packet's base time plus its delay.
pub open spec fn packet_step(cfg: ReplayConfig, ns: u64, pkt: (u64, u16), st: PlanState, ds: Seq<i64>) -> PlanState {
    let dec = packet_losses(cfg, pkt, st.pa, st.pb, st.bad_a, st.bad_b);
    let base = (pkt.0 * ns) as u64;
    let kind = SchedKind::Packet {
        first_seq: first_seq_of(cfg.session_change_at_msg, pkt.0) as u64,
        first_msg: pkt.0,
        count: pkt.1,
    };
    let a = if dec.0 {
        (dec.2, st.events, st.reqs)
    } else {
        deliver(cfg.delay@[0], base, 0, kind, dec.2, st.events, st.reqs, ds)
    };
    let b = if dec.1 {
        (dec.3, a.1, a.2)
    } else {
        deliver(cfg.delay@[1], base, 1, kind, dec.3, a.1, a.2, ds)
    };
    PlanState { pa: a.0, pb: b.0, bad_a: dec.4, bad_b: dec.5, events: b.1, reqs: b.2 }
}

/// `ds1` is a prefix of `ds2`.
pub open spec fn delays_prefix(ds1: Seq<i64>, ds2: Seq<i64>) -> bool {
    ds1.len() <= ds2.len() && forall|k: int| 0 <= k < ds1.len() ==> ds1[k] == ds2[k]
}

/// A delivery makes the same draws and requests whatever the delays, and reads only the
/// delay that answers the request it makes.
proof fn lemma_deliver_prefix(
    delay: DelayModel,
    base: u64,
    feed: u8,
    kind: SchedKind,
    prng: u64,
    events: Seq<SchedEvent>,
    reqs: Seq<(i64, u64, u64)>,
    ds1: Seq<i64>,
    ds2: Seq<i64>,
)
    ensures
        deliver(delay, base, feed, kind, prng, events, reqs, ds1).0 == deliver(delay, base, feed, kind, prng, events, reqs, ds2).0,
        deliver(delay, base, feed, kind, prng, events, reqs, ds1).2 == deliver(delay, base, feed, kind, prng, events, reqs, ds2).2,
        deliver(delay, base, feed, kind, prng, events, reqs, ds1).2.len() >= reqs.len(),
        (deliver(delay, base, feed, kind, prng, events, reqs, ds1).2.len() <= ds1.len() && delays_prefix(ds1, ds2)) ==> deliver(delay, base, feed, kind, prng, events, reqs, ds1) == deliver(delay, base, feed, kind, prng, events, reqs, ds2),
{
    if let DelayModel::GaussianApprox { .. } = delay {
        if reqs.len() + 1 <= ds1.len() && delays_prefix(ds1, ds2) {
            assert(ds1[reqs.len() as int] == ds2[reqs.len() as int]);
        }
    }
}

/// The planner state after the first `i` packets of `pk`.
pub open spec fn plan_upto(cfg: ReplayConfig, ns: u64, pk: Seq<(u64, u16)>, init: PlanState, i: int, ds: Seq<i64>) -> PlanState
    decreases i,
{
    if i <= 0 {
        init
    } else {
        packet_step(cfg, ns, pk[i - 1], plan_upto(cfg, ns, pk, init, i - 1, ds), ds)
    }
}

/// Nanoseconds between consecutive messages at the configured base rate.
pub open spec fn ns_per_msg(rate: u64) -> u64 {
    if rate > 0 {
        (1_000_000_000u64 / rate) as u64
    } else {
        1000
    }
}

/// The virtual clock can hold the base release time of every packet: the number of the
/// last message times the nanoseconds per message fits a `u64`.
pub open spec fn clock_fits(gt: Seq<u8>, config: ReplayConfig) -> bool {
    scan_lens(gt, 0).len() == 0 || (scan_lens(gt, 0).len() - 1) * ns_per_msg(config.base_rate_msg_per_sec)
        <= u64::MAX
}

/// Whether the virtual clock can hold the base release time of every packet of `gt`
/// under `config` (see [`clock_fits`]).
pub fn schedule_clock_fits(gt: &[u8], config: &ReplayConfig) -> (r: bool)
    ensures
        r == clock_fits(gt@, *config),
{
    let lens = scan_messages(gt);
    let n = lens.len();
    if n == 0 {
        return true;
    }
    let ns: u64 = if config.base_rate_msg_per_sec > 0 {
        1_000_000_000 / config.base_rate_msg_per_sec
    } else {
        1000
    };
    let last = (n - 1) as u64;
    match last.checked_mul(ns) {
        Some(_) => true,
        None => false,
    }
}

/// The latest release time among `evs` (0 for none).
pub open spec fn max_release(evs: Seq<SchedEvent>) -> u64
    decreases evs.len(),
{
    if evs.len() == 0 {
        0
    } else {
        let m = max_release(evs.drop_last());
        if evs.last().release_vt > m {
            evs.last().release_vt
        } else {
            m
        }
    }
}

/// The next expected sequence number after all `total` messages.
pub open spec fn final_next_seq(split: Option<u64>, total: int) -> int {
    match split {
        Some(m) => if total >= m {
            total - m + 1
        } else {
            total + 1
        },
        None => total + 1,
    }
}

/// The rolling heartbeats of a feed: one every `iv` nanoseconds from `hb` on, strictly
/// before `fvt` (none when `iv` is 0).
pub open spec fn rolling_heartbeats(iv: u64, hb: u64, fvt: u64, feed: u8, next_seq: u64) -> Seq<SchedEvent>
    decreases fvt - hb,
{
    if iv == 0 || hb >= fvt {
        Seq::empty()
    } else {
        let ev = SchedEvent { release_vt: hb, feed, kind: SchedKind::Heartbeat { next_seq } };
        if hb + iv > u64::MAX || hb + iv >= fvt {
            seq![ev]
        } else {
            seq![ev] + rolling_heartbeats(iv, (hb + iv) as u64, fvt, feed, next_seq)
        }
    }
}

/// The closing events of an enabled feed: its rolling heartbeats, a terminal heartbeat
/// 1000 ns after the last release, and an end of session 50 ms after that.
pub open spec fn closing_events(cfg: ReplayConfig, fvt: u64, next_seq: u64, f: int) -> Seq<SchedEvent> {
    if cfg.feeds_enabled & feed_bit(f) == 0 {
        Seq::empty()
    } else {
        let thb = fvt.wrapping_add(1000);
        rolling_heartbeats(cfg.heartbeat_interval_ns, cfg.heartbeat_interval_ns, fvt, f as u8, next_seq)
            + seq![
            SchedEvent { release_vt: thb, feed: f as u8, kind: SchedKind::Heartbeat { next_seq } },
            SchedEvent {
                release_vt: thb.wrapping_add(50_000_000),
                feed: f as u8,
                kind: SchedKind::EndOfSession { next_seq },
            },
        ]
    }
}

/// The planner state after every packet of `gt` under `cfg`, with Gaussian delays `ds`.
pub open spec fn plan_all(gt: Seq<u8>, cfg: ReplayConfig, ds: Seq<i64>) -> PlanState {
    let lens = scan_lens(gt, 0);
    let pk = packetize(cfg.msgs_per_packet, lens, 0, cfg.seed_a);
    let init = PlanState { pa: pk.1, pb: cfg.seed_b, bad_a: false, bad_b: false, events: Seq::empty(), reqs: Seq::empty() };
    plan_upto(cfg, ns_per_msg(cfg.base_rate_msg_per_sec), pk.0, init, pk.0.len() as int, ds)
}

/// The Gaussian delay requests building the schedule of `gt` under `cfg` makes, in order.
pub open spec fn delay_requests(gt: Seq<u8>, cfg: ReplayConfig) -> Seq<(i64, u64, u64)> {
    plan_all(gt, cfg, Seq::empty()).reqs
}

/// The events of the schedule of `gt` under `cfg` with Gaussian delays `ds`: packet
/// events, then each enabled feed's closing events, sorted into the schedule order.
pub open spec fn schedule_events(gt: Seq<u8>, cfg: ReplayConfig, ds: Seq<i64>) -> Seq<SchedEvent> {
    let lens = scan_lens(gt, 0);
    if lens.len() == 0 {
        Seq::empty()
    } else {
        let st = plan_all(gt, cfg, ds);
        let fvt = max_release(st.events);
        let nseq = final_next_seq(cfg.session_change_at_msg, lens.len() as int) as u64;
        (st.events + closing_events(cfg, fvt, nseq, 0) + closing_events(cfg, fvt, nseq, 1)).sort_by(
            sched_order(),
        )
    }
}


/// The loss decision of feed `f` for a packet (see [`feed_loss`]).
fn feed_loss_exec(
    config: &ReplayConfig,
    f: usize,
    first_seq: u64,
    end_seq: u64,
    prng: &mut SplitMix64,
    bad: &mut bool,
) -> (dropped: bool)
    requires
        f < 2,
    ensures
        (dropped, final(prng).state, *final(bad)) == feed_loss(
            *config,
            f as int,
            first_seq as int,
            end_seq as int,
            old(prng).state,
            *old(bad),
        ),
{
    let bit: u8 = if f == 0 {
        1
    } else {
        2
    };
    if config.feeds_enabled & bit == 0 {
        return true;
    }
    let mut i: usize = 0;
    while i < config.scripted_drops.len()
        invariant
            bit == feed_bit(f as int),
            i <= config.scripted_drops@.len(),
            forall|k: int| 0 <= k < i ==> !drop_hits(config.scripted_drops@[k], f as int, first_seq as int, end_seq as int),
        decreases config.scripted_drops.len() - i,
    {
        let d = config.scripted_drops[i];
        if (d.feed_mask & bit) != 0 && !(end_seq < d.seq_from || first_seq > d.seq_to_incl) {
            assert(drop_hits(config.scripted_drops@[i as int], f as int, first_seq as int, end_seq as int));
            return true;
        }
        i = i + 1;
    }
    assert(!scripted_hit(config.scripted_drops@, f as int, first_seq as int, end_seq as int));
    match config.loss[f] {
        LossModel::NoLoss => false,
        LossModel::Bernoulli { p_pm } => {
            let draw = (prng.next_u64() % 1000) as u32;
            draw < p_pm
        },
        LossModel::GilbertElliott { p_g2b_pm, p_b2g_pm, p_drop_good_pm, p_drop_bad_pm } => {
            let is_bad = *bad;
            let drop_p = if is_bad {
                p_drop_bad_pm
            } else {
                p_drop_good_pm
            };
            let draw = (prng.next_u64() % 1000) as u32;
            let dropped = draw < drop_p;
            let trans_draw = (prng.next_u64() % 1000) as u32;
            if is_bad {
                if trans_draw < p_b2g_pm {
                    *bad = false;
                }
            } else if trans_draw < p_g2b_pm {
                *bad = true;
            }
            dropped
        },
    }
}

/// `base` moved by `delay` nanoseconds, saturating (see [`release_at`]).
fn release_at_exec(base: u64, delay: i64) -> (r: u64)
    ensures
        r == release_at(base, delay),
{
    if delay >= 0 {
        base.saturating_add(delay as u64)
    } else {
        let magnitude = (-(delay + 1)) as u64 + 1;
        base.saturating_sub(magnitude)
    }
}

/// Appends the event of a packet delivered on `feed`; under a Gaussian delay model the
/// delay comes from `gaussian(mean, sigma, generator state)` and the generator then
/// advances by twelve draws. Returns the delay asked for, if any.
fn deliver_exec<F: Fn(i64, u64, u64) -> i64>(
    delay: DelayModel,
    base: u64,
    feed: u8,
    kind: SchedKind,
    prng: &mut SplitMix64,
    events: &mut Vec<SchedEvent>,
    gaussian: &F,
) -> (r: Option<i64>)
    requires
        forall|a: i64, b: u64, c: u64| call_requires(*gaussian, (a, b, c)),
    ensures
        match delay {
            DelayModel::NoDelay => {
                &&& r is None
                &&& final(prng).state == old(prng).state
                &&& final(events)@ == old(events)@.push(SchedEvent { release_vt: base, feed, kind })
            },
            DelayModel::GaussianApprox { mean_ns, sigma_ns } => {
                &&& r matches Some(d) && call_ensures(*gaussian, (mean_ns, sigma_ns, old(prng).state), d)
                &&& final(prng).state == splitmix_steps(old(prng).state, 12)
                &&& final(events)@ == old(events)@.push(
                    SchedEvent { release_vt: release_at(base, r->Some_0), feed, kind },
                )
            },
        },
{
    match delay {
        DelayModel::NoDelay => {
            events.push(SchedEvent { release_vt: base, feed, kind });
            None
        },
        DelayModel::GaussianApprox { mean_ns, sigma_ns } => {
            let state = prng.state;
            let d = gaussian(mean_ns, sigma_ns, state);
            let mut i: usize = 0;
            while i < 12
                invariant
                    i <= 12,
                    prng.state == splitmix_steps(state, i as nat),
                decreases 12 - i,
            {
                proof {
                    lemma_steps_succ(state, i as nat);
                }
                prng.next_u64();
                i = i + 1;
            }
            let release_vt = release_at_exec(base, d);
            events.push(SchedEvent { release_vt, feed, kind });
            Some(d)
        },
    }
}

/// One more draw after `n` draws is `n + 1` draws.
proof fn lemma_steps_succ(s: u64, n: nat)
    ensures
        splitmix_step(splitmix_steps(s, n)) == splitmix_steps(s, n + 1),
    decreases n,
{
    assert(splitmix_steps(s, n + 1) == splitmix_steps(splitmix_step(s), n));
    if n > 0 {
        lemma_steps_succ(splitmix_step(s), (n - 1) as nat);
        assert(splitmix_steps(s, n) == splitmix_steps(splitmix_step(s), (n - 1) as nat));
    } else {
        assert(splitmix_steps(splitmix_step(s), 0) == splitmix_step(s));
    }
}


/// Packets start within the message stream and take at least one message.
proof fn lemma_packetize_bounds(mode: Packetize, lens: Seq<u16>, cur: int, prng: u64)
    requires
        0 <= cur,
        lens.len() <= u64::MAX,
        packetize_ok(mode),
    ensures
        forall|j: int|
            0 <= j < packetize(mode, lens, cur, prng).0.len() ==> cur <= (#[trigger] packetize(
                mode,
                lens,
                cur,
                prng,
            ).0[j]).0 < lens.len() && packetize(mode, lens, cur, prng).0[j].1 >= 1,
    decreases lens.len() - cur,
{
    if 0 <= cur < lens.len() {
        let pc = packet_count(mode, lens, cur, prng);
        if pc.0 >= 1 && cur + pc.0 <= lens.len() {
            lemma_packet_count_bound(mode, lens, cur, prng);
            lemma_packetize_bounds(mode, lens, cur + pc.0, pc.1);
            let rest = packetize(mode, lens, cur + pc.0, pc.1).0;
            let all = packetize(mode, lens, cur, prng).0;
            assert(all == seq![(cur as u64, pc.0 as u16)] + rest);
            assert forall|j: int| 0 <= j < all.len() implies cur <= (#[trigger] all[j]).0 < lens.len() && all[j].1 >= 1 by {
                if j > 0 {
                    assert(all[j] == rest[j - 1]);
                }
            }
        }
    }
}

/// The delay sequence `o` contributes.
pub open spec fn opt_seq(o: Option<i64>) -> Seq<i64> {
    match o {
        Some(d) => seq![d],
        None => Seq::empty(),
    }
}

/// A packet step makes the same draws and requests whatever the delays, and reads
/// delays only below the request count it reaches.
proof fn lemma_step_prefix(cfg: ReplayConfig, ns: u64, pkt: (u64, u16), st: PlanState, ds1: Seq<i64>, ds2: Seq<i64>)
    ensures
        packet_step(cfg, ns, pkt, st, ds1).reqs == packet_step(cfg, ns, pkt, st, ds2).reqs,
        packet_step(cfg, ns, pkt, st, ds1).pa == packet_step(cfg, ns, pkt, st, ds2).pa,
        packet_step(cfg, ns, pkt, st, ds1).pb == packet_step(cfg, ns, pkt, st, ds2).pb,
        packet_step(cfg, ns, pkt, st, ds1).bad_a == packet_step(cfg, ns, pkt, st, ds2).bad_a,
        packet_step(cfg, ns, pkt, st, ds1).bad_b == packet_step(cfg, ns, pkt, st, ds2).bad_b,
        packet_step(cfg, ns, pkt, st, ds1).reqs.len() >= st.reqs.len(),
        (packet_step(cfg, ns, pkt, st, ds1).reqs.len() <= ds1.len() && delays_prefix(ds1, ds2))
            ==> packet_step(cfg, ns, pkt, st, ds1) == packet_step(cfg, ns, pkt, st, ds2),
{
    let dec = packet_losses(cfg, pkt, st.pa, st.pb, st.bad_a, st.bad_b);
    let base = (pkt.0 * ns) as u64;
    let kind = SchedKind::Packet {
        first_seq: first_seq_of(cfg.session_change_at_msg, pkt.0) as u64,
        first_msg: pkt.0,
        count: pkt.1,
    };
    lemma_deliver_prefix(cfg.delay@[0], base, 0, kind, dec.2, st.events, st.reqs, ds1, ds2);
    let a1 = if dec.0 {
        (dec.2, st.events, st.reqs)
    } else {
        deliver(cfg.delay@[0], base, 0, kind, dec.2, st.events, st.reqs, ds1)
    };
    let a2 = if dec.0 {
        (dec.2, st.events, st.reqs)
    } else {
        deliver(cfg.delay@[0], base, 0, kind, dec.2, st.events, st.reqs, ds2)
    };
    lemma_deliver_prefix(cfg.delay@[1], base, 1, kind, dec.3, a1.1, a1.2, ds1, ds2);
    lemma_deliver_prefix(cfg.delay@[1], base, 1, kind, dec.3, a2.1, a2.2, ds2, ds2);
    lemma_deliver_prefix(cfg.delay@[1], base, 1, kind, dec.3, a1.1, a1.2, ds2, ds2);
    if !dec.1 {
        assert(deliver(cfg.delay@[1], base, 1, kind, dec.3, a1.1, a1.2, ds2).2 == deliver(
            cfg.delay@[1],
            base,
            1,
            kind,
            dec.3,
            a2.1,
            a2.2,
            ds2,
        ).2);
    }
}

/// The planner's draws and requests do not depend on the delays, and it reads delays
/// only below the request count it reaches.
proof fn lemma_plan_prefix(cfg: ReplayConfig, ns: u64, pk: Seq<(u64, u16)>, init: PlanState, i: int, ds1: Seq<i64>, ds2: Seq<i64>)
    requires
        0 <= i <= pk.len(),
    ensures
        plan_upto(cfg, ns, pk, init, i, ds1).reqs == plan_upto(cfg, ns, pk, init, i, ds2).reqs,
        plan_upto(cfg, ns, pk, init, i, ds1).pa == plan_upto(cfg, ns, pk, init, i, ds2).pa,
        plan_upto(cfg, ns, pk, init, i, ds1).pb == plan_upto(cfg, ns, pk, init, i, ds2).pb,
        plan_upto(cfg, ns, pk, init, i, ds1).bad_a == plan_upto(cfg, ns, pk, init, i, ds2).bad_a,
        plan_upto(cfg, ns, pk, init, i, ds1).bad_b == plan_upto(cfg, ns, pk, init, i, ds2).bad_b,
        plan_upto(cfg, ns, pk, init, i, ds1).reqs.len() >= init.reqs.len(),
        (plan_upto(cfg, ns, pk, init, i, ds1).reqs.len() <= ds1.len() && delays_prefix(ds1, ds2))
            ==> plan_upto(cfg, ns, pk, init, i, ds1) == plan_upto(cfg, ns, pk, init, i, ds2),
    decreases i,
{
    if i > 0 {
        lemma_plan_prefix(cfg, ns, pk, init, i - 1, ds1, ds2);
        let s1 = plan_upto(cfg, ns, pk, init, i - 1, ds1);
        let s2 = plan_upto(cfg, ns, pk, init, i - 1, ds2);
        lemma_step_prefix(cfg, ns, pk[i - 1], s1, ds1, ds2);
        lemma_step_prefix(cfg, ns, pk[i - 1], s2, ds1, ds2);
        lemma_step_prefix(cfg, ns, pk[i - 1], s1, ds2, ds2);
        assert(packet_step(cfg, ns, pk[i - 1], s1, ds2).reqs == packet_step(cfg, ns, pk[i - 1], s2, ds2).reqs) by {
            assert(s1.reqs == s2.reqs);
            assert(s1.pa == s2.pa && s1.pb == s2.pb && s1.bad_a == s2.bad_a && s1.bad_b == s2.bad_b);
            let t1 = PlanState { events: s2.events, ..s1 };
            assert(t1 == s2);
        }
    }
}



/// The loss decisions for a packet (see [`packet_losses`]): whether feed A and feed B
/// drop it.
fn losses_exec(
    config: &ReplayConfig,
    first_msg: u64,
    count: u16,
    prng_a: &mut SplitMix64,
    prng_b: &mut SplitMix64,
    bad_a: &mut bool,
    bad_b: &mut bool,
) -> (r: (bool, bool))
    requires
        first_msg + 0x1_0000 <= u64::MAX,
        count >= 1,
    ensures
        (r.0, r.1, final(prng_a).state, final(prng_b).state, *final(bad_a), *final(bad_b)) == packet_losses(
            *config,
            (first_msg, count),
            old(prng_a).state,
            old(prng_b).state,
            *old(bad_a),
            *old(bad_b),
        ),
{
    proof {
        reveal(packet_losses);
    }
    let fs: u64 = match config.session_change_at_msg {
        Some(m) => if first_msg >= m {
            first_msg - m + 1
        } else {
            first_msg + 1
        },
        None => first_msg + 1,
    };
    let es = fs + count as u64 - 1;
    let d0 = feed_loss_exec(config, 0, fs, es, prng_a, bad_a);
    let d1 = feed_loss_exec(config, 1, fs, es, prng_b, bad_b);
    let mut drop0 = d0;
    let mut drop1 = d1;
    if config.guarantee_coverage && d0 && d1 && (config.feeds_enabled & 1 != 0) && (config.feeds_enabled & 2 != 0) {
        let x = prng_a.next_u64();
        let chosen = x & 1;
        assert(x & 1u64 == 0 || x & 1u64 == 1) by (bit_vector);
        if chosen == 0 {
            drop0 = false;
        } else {
            drop1 = false;
        }
    }
    (drop0, drop1)
}

/// Plans one packet `(first_msg, count)` (see [`packet_step`]): decides loss on both
/// feeds and appends the event of each feed that keeps it. Returns the delays asked of
/// `gaussian` for feed A and feed B, if any.
#[verifier::rlimit(60)]
#[verifier::spinoff_prover]
fn plan_packet<F: Fn(i64, u64, u64) -> i64>(
    config: &ReplayConfig,
    ns: u64,
    first_msg: u64,
    count: u16,
    prng_a: &mut SplitMix64,
    prng_b: &mut SplitMix64,
    bad_a: &mut bool,
    bad_b: &mut bool,
    events: &mut Vec<SchedEvent>,
    gaussian: &F,
    Ghost(reqs): Ghost<Seq<(i64, u64, u64)>>,
    Ghost(ds): Ghost<Seq<i64>>,
) -> (r: (Option<i64>, Option<i64>))
    requires
        first_msg + 0x1_0000 <= u64::MAX,
        first_msg * ns <= u64::MAX,
        count >= 1,
        ds.len() == reqs.len(),
        forall|a: i64, b: u64, c: u64| call_requires(*gaussian, (a, b, c)),
    ensures
        ({
            let st0 = PlanState {
                pa: old(prng_a).state,
                pb: old(prng_b).state,
                bad_a: *old(bad_a),
                bad_b: *old(bad_b),
                events: old(events)@,
                reqs,
            };
            let dsx = ds + opt_seq(r.0) + opt_seq(r.1);
            let st1 = packet_step(*config, ns, (first_msg, count), st0, dsx);
            &&& final(prng_a).state == st1.pa
            &&& final(prng_b).state == st1.pb
            &&& *final(bad_a) == st1.bad_a
            &&& *final(bad_b) == st1.bad_b
            &&& final(events)@ == st1.events
            &&& st1.reqs.len() == dsx.len()
            &&& st1.reqs.take(reqs.len() as int) == reqs
            &&& forall|k: int| reqs.len() <= k < dsx.len() ==> call_ensures(*gaussian, #[trigger] st1.reqs[k], dsx[k])
        }),
{
    let ghost dec = packet_losses(*config, (first_msg, count), prng_a.state, prng_b.state, *bad_a, *bad_b);
    let (drop0, drop1) = losses_exec(config, first_msg, count, prng_a, prng_b, bad_a, bad_b);
    let fs: u64 = match config.session_change_at_msg {
        Some(m) => if first_msg >= m {
            first_msg - m + 1
        } else {
            first_msg + 1
        },
        None => first_msg + 1,
    };
    let ghost pa0 = old(prng_a).state;
    let ghost pb0 = old(prng_b).state;
    let ghost ba0 = *old(bad_a);
    let ghost bb0 = *old(bad_b);
    let ghost ev0 = events@;
    let base = first_msg * ns;
    let kind = SchedKind::Packet { first_seq: fs, first_msg, count };
    let ghost e1 = events@;
    let r0 = if !drop0 {
        deliver_exec(config.delay[0], base, 0, kind, prng_a, events, gaussian)
    } else {
        None
    };
    let ghost e2 = events@;
    let r1 = if !drop1 {
        deliver_exec(config.delay[1], base, 1, kind, prng_b, events, gaussian)
    } else {
        None
    };
    proof {
        let st0 = PlanState { pa: pa0, pb: pb0, bad_a: ba0, bad_b: bb0, events: ev0, reqs };
        let dsx = ds + opt_seq(r0) + opt_seq(r1);
        let a = if dec.0 {
            (dec.2, st0.events, st0.reqs)
        } else {
            deliver(config.delay@[0], base, 0, kind, dec.2, st0.events, st0.reqs, dsx)
        };
        assert(a.1 == e2);
        assert(a.2.len() == ds.len() + opt_seq(r0).len());
        if let Some(d) = r0 {
            assert(dsx[reqs.len() as int] == d);
        }
        if let Some(d) = r1 {
            assert(dsx[a.2.len() as int] == d);
        }
        assert(a.2.take(reqs.len() as int) =~= reqs);
    }
    (r0, r1)
}


/// The session id frames carry from a session split on.
pub open spec fn split_session_id() -> Seq<u8> {
    seq![0x53u8, 0x50u8, 0x4Cu8, 0x49u8, 0x54u8, 0x53u8, 0x45u8, 0x53u8, 0x53u8, 0x32u8]
}

/// Appends the closing events of feed `f` (see [`closing_events`]).
fn push_closing(config: &ReplayConfig, fvt: u64, next_seq: u64, f: u8, events: &mut Vec<SchedEvent>)
    requires
        f < 2,
    ensures
        final(events)@ == old(events)@ + closing_events(*config, fvt, next_seq, f as int),
{
    let bit: u8 = if f == 0 {
        1
    } else {
        2
    };
    if config.feeds_enabled & bit == 0 {
        assert(old(events)@ =~= old(events)@ + Seq::<SchedEvent>::empty());
        return;
    }
    let iv = config.heartbeat_interval_ns;
    let ghost e0 = events@;
    let ghost target = e0 + rolling_heartbeats(iv, iv, fvt, f, next_seq);
    let mut hb = iv;
    let mut go = iv > 0 && iv < fvt;
    if !go {
        assert(target =~= e0);
    }
    while go
        invariant
            go ==> hb < fvt && iv > 0 && events@ + rolling_heartbeats(iv, hb, fvt, f, next_seq) == target,
            !go ==> events@ == target,
        decreases fvt - hb + (if go {
            1int
        } else {
            0int
        }),
    {
        let ghost before = events@;
        let ev = SchedEvent { release_vt: hb, feed: f, kind: SchedKind::Heartbeat { next_seq } };
        events.push(ev);
        if hb <= u64::MAX - iv && hb + iv < fvt {
            proof {
                assert(rolling_heartbeats(iv, hb, fvt, f, next_seq) == seq![ev] + rolling_heartbeats(
                    iv,
                    (hb + iv) as u64,
                    fvt,
                    f,
                    next_seq,
                ));
                assert(events@ + rolling_heartbeats(iv, (hb + iv) as u64, fvt, f, next_seq) =~= before
                    + rolling_heartbeats(iv, hb, fvt, f, next_seq));
            }
            hb = hb + iv;
        } else {
            proof {
                assert(rolling_heartbeats(iv, hb, fvt, f, next_seq) == seq![ev]);
                assert(events@ =~= before + seq![ev]);
            }
            go = false;
        }
    }
    let thb = fvt.wrapping_add(1000);
    let ghost mid = events@;
    events.push(SchedEvent { release_vt: thb, feed: f, kind: SchedKind::Heartbeat { next_seq } });
    events.push(
        SchedEvent {
            release_vt: thb.wrapping_add(50_000_000),
            feed: f,
            kind: SchedKind::EndOfSession { next_seq },
        },
    );
    assert(events@ =~= old(events)@ + closing_events(*config, fvt, next_seq, f as int));
}

/// The latest release time among `events` (0 for none).
fn max_release_exec(events: &Vec<SchedEvent>) -> (r: u64)
    ensures
        r == max_release(events@),
{
    let mut m: u64 = 0;
    let mut k: usize = 0;
    while k < events.len()
        invariant
            k <= events@.len(),
            m == max_release(events@.take(k as int)),
        decreases events.len() - k,
    {
        proof {
            assert(events@.take(k + 1).drop_last() =~= events@.take(k as int));
        }
        if events[k].release_vt > m {
            m = events[k].release_vt;
        }
        k = k + 1;
    }
    assert(events@.take(k as int) =~= events@);
    m
}

/// Builds the replay schedule of ground-truth stream `gt` under `config`: packets cut from
/// the stream's messages, per-feed loss and delay, closing heartbeats and ends of session,
/// sorted into the schedule order. Gaussian delays are asked of `gaussian(mean, sigma,
/// generator state)`, which computes one from the twelve draws that follow that state.
pub fn build_schedule<F: Fn(i64, u64, u64) -> i64>(gt: &[u8], config: &ReplayConfig, gaussian: F) -> (r: ReplaySchedule)
    requires
        clock_fits(gt@, *config),
        packetize_ok(config.msgs_per_packet),
        forall|a: i64, b: u64, c: u64| call_requires(gaussian, (a, b, c)),
    ensures
        (scan_lens(gt@, 0).len() == 0 || config.session_change_at_msg is None) ==> r.session_split is None,
        scan_lens(gt@, 0).len() > 0 && config.session_change_at_msg is Some ==> (r.session_split matches Some(
            (m, id),
        ) && m == config.session_change_at_msg->Some_0 && id@ == split_session_id()),
        exists|ds: Seq<i64>|
            #[trigger] schedule_events(gt@, *config, ds) == r.events@ && ds.len() == delay_requests(
                gt@,
                *config,
            ).len() && forall|k: int|
                0 <= k < ds.len() ==> call_ensures(gaussian, delay_requests(gt@, *config)[k], ds[k]),
{
    let lens = scan_messages(gt);
    proof {
        lemma_scan_lens_len(gt@, 0);
    }
    let total = lens.len();
    let gt_len = gt.len();
    assert(gt@.len() == gt_len);
    if total == 0 {
        let r = ReplaySchedule::default();
        proof {
            let e: Seq<i64> = Seq::empty();
            assert(r.events@ =~= Seq::<SchedEvent>::empty());
            assert(schedule_events(gt@, *config, e) == r.events@);
        }
        return r;
    }
    let mut prng_a = SplitMix64::new(config.seed_a);
    let mut prng_b = SplitMix64::new(config.seed_b);
    let packets = packetize_exec(config.msgs_per_packet, &lens, &mut prng_a);
    proof {
        lemma_packetize_bounds(config.msgs_per_packet, lens@, 0, config.seed_a);
        let pk = packetize(config.msgs_per_packet, lens@, 0, config.seed_a).0;
        assert(packets@ == pk);
        assert forall|j: int| 0 <= j < packets@.len() implies (#[trigger] packets@[j]).0 < lens@.len() && packets@[j].1 >= 1 by {
            assert(pk[j] == packets@[j]);
        }
    }
    let ns: u64 = if config.base_rate_msg_per_sec > 0 {
        1_000_000_000 / config.base_rate_msg_per_sec
    } else {
        1000
    };
    let mut events: Vec<SchedEvent> = Vec::new();
    let mut bad_a = false;
    let mut bad_b = false;
    let ghost init = PlanState {
        pa: prng_a.state,
        pb: prng_b.state,
        bad_a: false,
        bad_b: false,
        events: Seq::empty(),
        reqs: Seq::empty(),
    };
    let ghost mut reqs: Seq<(i64, u64, u64)> = Seq::empty();
    let ghost mut ds: Seq<i64> = Seq::empty();
    let mut i: usize = 0;
    while i < packets.len()
        invariant
            i <= packets@.len(),
            forall|j: int| 0 <= j < packets@.len() ==> (#[trigger] packets@[j]).0 < lens@.len() && packets@[j].1 >= 1,
            2 * lens@.len() <= gt@.len() <= usize::MAX,
            lens@.len() == 0 || (lens@.len() - 1) * ns <= u64::MAX,
            ns == ns_per_msg(config.base_rate_msg_per_sec),
            forall|a: i64, b: u64, c: u64| call_requires(gaussian, (a, b, c)),
            ds.len() == reqs.len(),
            forall|k: int| 0 <= k < ds.len() ==> call_ensures(gaussian, #[trigger] reqs[k], ds[k]),
            plan_upto(*config, ns, packets@, init, i as int, ds) == (PlanState {
                pa: prng_a.state,
                pb: prng_b.state,
                bad_a,
                bad_b,
                events: events@,
                reqs,
            }),
        decreases packets.len() - i,
    {
        let (fm, c) = packets[i];
        proof {
            assert(fm * ns <= (lens@.len() - 1) * ns) by (nonlinear_arith)
                requires
                    fm <= lens@.len() - 1,
            ;
        }
        let ghost st_prev = plan_upto(*config, ns, packets@, init, i as int, ds);
        let (r0, r1) = plan_packet(
            config,
            ns,
            fm,
            c,
            &mut prng_a,
            &mut prng_b,
            &mut bad_a,
            &mut bad_b,
            &mut events,
            &gaussian,
            Ghost(reqs),
            Ghost(ds),
        );
        proof {
            let dsx = ds + opt_seq(r0) + opt_seq(r1);
            lemma_plan_prefix(*config, ns, packets@, init, i as int, ds, dsx);
            assert(delays_prefix(ds, dsx));
            let st1 = packet_step(*config, ns, (fm, c), st_prev, dsx);
            assert(plan_upto(*config, ns, packets@, init, i + 1, dsx) == st1);
            assert forall|k: int| 0 <= k < dsx.len() implies call_ensures(gaussian, #[trigger] st1.reqs[k], dsx[k]) by {
                if k < reqs.len() {
                    assert(st1.reqs.take(reqs.len() as int)[k] == st1.reqs[k]);
                }
            }
            reqs = st1.reqs;
            ds = dsx;
        }
        i = i + 1;
    }
    let fvt = max_release_exec(&events);
    let total64 = total as u64;
    let nseq: u64 = match config.session_change_at_msg {
        Some(m) => if total64 >= m {
            total64 - m + 1
        } else {
            total64 + 1
        },
        None => total64 + 1,
    };
    let ghost planned = events@;
    push_closing(config, fvt, nseq, 0, &mut events);
    push_closing(config, fvt, nseq, 1, &mut events);
    let sorted = sort_events(events);
    let session_split = match config.session_change_at_msg {
        Some(m) => Some((m, [0x53u8, 0x50u8, 0x4Cu8, 0x49u8, 0x54u8, 0x53u8, 0x45u8, 0x53u8, 0x53u8, 0x32u8])),
        None => None,
    };
    proof {
        let e: Seq<i64> = Seq::empty();
        lemma_plan_prefix(*config, ns, packets@, init, packets@.len() as int, e, ds);
        assert(plan_all(gt@, *config, ds).events == planned);
        assert(schedule_events(gt@, *config, ds) == sorted@);
        if let Some((m, id)) = session_split {
            assert(id@ =~= split_session_id());
        }
    }
    ReplaySchedule { events: sorted, session_split }
}


/// Event `ev` is a packet that carries ground-truth message `m`.
pub open spec fn carries(ev: SchedEvent, m: int) -> bool {
    ev.kind matches SchedKind::Packet { first_msg, count, .. } && first_msg <= m < first_msg + count
}

/// Some packet of `pk` carries message `m`.
pub open spec fn packets_cover(pk: Seq<(u64, u16)>, m: int) -> bool {
    exists|j: int| 0 <= j < pk.len() && (#[trigger] pk[j]).0 <= m < pk[j].0 + pk[j].1
}

/// The packets cut from message `cur` on carry every message from `cur` on.
proof fn lemma_packetize_covers(mode: Packetize, lens: Seq<u16>, cur: int, prng: u64)
    requires
        0 <= cur,
        lens.len() <= u64::MAX,
        packetize_ok(mode),
    ensures
        forall|m: int| cur <= m < lens.len() ==> #[trigger] packets_cover(packetize(mode, lens, cur, prng).0, m),
    decreases lens.len() - cur,
{
    if cur < lens.len() {
        lemma_packet_count_bound(mode, lens, cur, prng);
        let pc = packet_count(mode, lens, cur, prng);
        lemma_packetize_covers(mode, lens, cur + pc.0, pc.1);
        let rest = packetize(mode, lens, cur + pc.0, pc.1).0;
        let all = packetize(mode, lens, cur, prng).0;
        assert(all == seq![(cur as u64, pc.0 as u16)] + rest);
        assert forall|m: int| cur <= m < lens.len() implies #[trigger] packets_cover(all, m) by {
            if m < cur + pc.0 {
                assert(all[0].0 <= m < all[0].0 + all[0].1);
            } else {
                assert(packets_cover(rest, m));
                let j = choose|j: int| 0 <= j < rest.len() && (#[trigger] rest[j]).0 <= m < rest[j].0 + rest[j].1;
                assert(all[j + 1] == rest[j]);
            }
        }
    }
}

/// Event `ev` is packet `pkt` `(first message, count)`.
pub open spec fn is_packet(ev: SchedEvent, pkt: (u64, u16)) -> bool {
    ev.kind matches SchedKind::Packet { first_msg, count, .. } && first_msg == pkt.0 && count == pkt.1
}

/// Some event of `evs` is packet `pkt`.
pub open spec fn delivers(evs: Seq<SchedEvent>, pkt: (u64, u16)) -> bool {
    exists|k: int| 0 <= k < evs.len() && is_packet(#[trigger] evs[k], pkt)
}

/// Under guaranteed coverage with both feeds enabled, a packet step keeps the events so
/// far and delivers the packet on some feed.
proof fn lemma_step_delivers(cfg: ReplayConfig, ns: u64, pkt: (u64, u16), st: PlanState, ds: Seq<i64>)
    requires
        cfg.guarantee_coverage,
        cfg.feeds_enabled & 1u8 != 0,
        cfg.feeds_enabled & 2u8 != 0,
    ensures
        packet_step(cfg, ns, pkt, st, ds).events.len() >= st.events.len(),
        packet_step(cfg, ns, pkt, st, ds).events.take(st.events.len() as int) == st.events,
        delivers(packet_step(cfg, ns, pkt, st, ds).events, pkt),
{
    reveal(packet_losses);
    let dec = packet_losses(cfg, pkt, st.pa, st.pb, st.bad_a, st.bad_b);
    let fs = first_seq_of(cfg.session_change_at_msg, pkt.0);
    let es = fs + pkt.1 - 1;
    let l0 = feed_loss(cfg, 0, fs, es, st.pa, st.bad_a);
    let l1 = feed_loss(cfg, 1, fs, es, st.pb, st.bad_b);
    let pa2 = if l0.0 && l1.0 {
        splitmix_step(l0.1)
    } else {
        l0.1
    };
    let x = splitmix_mix(pa2);
    assert(x & 1u64 == 0 || x & 1u64 == 1) by (bit_vector);
    assert(!(dec.0 && dec.1));
    let st2 = packet_step(cfg, ns, pkt, st, ds);
    let base = (pkt.0 * ns) as u64;
    let kind = SchedKind::Packet {
        first_seq: first_seq_of(cfg.session_change_at_msg, pkt.0) as u64,
        first_msg: pkt.0,
        count: pkt.1,
    };
    let a = if dec.0 {
        (dec.2, st.events, st.reqs)
    } else {
        deliver(cfg.delay@[0], base, 0, kind, dec.2, st.events, st.reqs, ds)
    };
    assert(a.1.take(st.events.len() as int) =~= st.events);
    if !dec.0 {
        assert(a.1.last().kind == kind);
        assert(delivers(a.1, pkt));
    }
    if !dec.1 {
        let b = deliver(cfg.delay@[1], base, 1, kind, dec.3, a.1, a.2, ds);
        assert(b.1.last().kind == kind);
        assert(b.1.take(st.events.len() as int) =~= st.events);
    } else {
        let k = choose|k: int| 0 <= k < a.1.len() && is_packet(#[trigger] a.1[k], pkt);
        assert(st2.events[k] == a.1[k]);
    }
    if !dec.0 && !dec.1 {
        let b = deliver(cfg.delay@[1], base, 1, kind, dec.3, a.1, a.2, ds);
        assert(b.1[a.1.len() - 1] == a.1.last());
    }
}

/// Under guaranteed coverage with both feeds enabled, the planner delivers each of the
/// first `i` packets on some feed.
proof fn lemma_plan_delivers(cfg: ReplayConfig, ns: u64, pk: Seq<(u64, u16)>, init: PlanState, i: int, ds: Seq<i64>)
    requires
        cfg.guarantee_coverage,
        cfg.feeds_enabled & 1u8 != 0,
        cfg.feeds_enabled & 2u8 != 0,
        0 <= i <= pk.len(),
    ensures
        forall|j: int| 0 <= j < i ==> #[trigger] delivers(plan_upto(cfg, ns, pk, init, i, ds).events, pk[j]),
    decreases i,
{
    if i > 0 {
        lemma_plan_delivers(cfg, ns, pk, init, i - 1, ds);
        let st = plan_upto(cfg, ns, pk, init, i - 1, ds);
        lemma_step_delivers(cfg, ns, pk[i - 1], st, ds);
        let evs = plan_upto(cfg, ns, pk, init, i, ds).events;
        assert forall|j: int| 0 <= j < i implies #[trigger] delivers(evs, pk[j]) by {
            if j < i - 1 {
                assert(delivers(st.events, pk[j]));
                let k = choose|k: int| 0 <= k < st.events.len() && is_packet(#[trigger] st.events[k], pk[j]);
                assert(evs.take(st.events.len() as int)[k] == evs[k]);
            }
        }
    }
}

/// Some event of `evs` is a packet that carries message `m`.
pub open spec fn schedule_carries(evs: Seq<SchedEvent>, m: int) -> bool {
    exists|k: int| 0 <= k < evs.len() && #[trigger] carries(evs[k], m)
}

/// With coverage guaranteed and both feeds enabled, every message of the stream is
/// carried by some packet of the schedule, whatever the loss draws and delays.
pub proof fn law_schedule_covers(gt: Seq<u8>, cfg: ReplayConfig, ds: Seq<i64>)
    requires
        cfg.guarantee_coverage,
        cfg.feeds_enabled & 1u8 != 0,
        cfg.feeds_enabled & 2u8 != 0,
        packetize_ok(cfg.msgs_per_packet),
        clock_fits(gt, cfg),
        gt.len() <= usize::MAX,
    ensures
        forall|m: int| 0 <= m < scan_lens(gt, 0).len() ==> #[trigger] schedule_carries(schedule_events(gt, cfg, ds), m),
{
    broadcast use vstd::seq_lib::group_to_multiset_ensures;
    let lens = scan_lens(gt, 0);
    lemma_scan_lens_len(gt, 0);
    if lens.len() > 0 {
        let pk = packetize(cfg.msgs_per_packet, lens, 0, cfg.seed_a);
        let init = PlanState {
            pa: pk.1,
            pb: cfg.seed_b,
            bad_a: false,
            bad_b: false,
            events: Seq::empty(),
            reqs: Seq::empty(),
        };
        let ns = ns_per_msg(cfg.base_rate_msg_per_sec);
        lemma_packetize_covers(cfg.msgs_per_packet, lens, 0, cfg.seed_a);
        lemma_plan_delivers(cfg, ns, pk.0, init, pk.0.len() as int, ds);
        let st = plan_all(gt, cfg, ds);
        let fvt = max_release(st.events);
        let nseq = final_next_seq(cfg.session_change_at_msg, lens.len() as int) as u64;
        let all = st.events + closing_events(cfg, fvt, nseq, 0) + closing_events(cfg, fvt, nseq, 1);
        let sorted = all.sort_by(sched_order());
        crate::transport::sched_types::lemma_sched_order_total();
        all.lemma_sort_by_ensures(sched_order());
        assert forall|m: int| 0 <= m < lens.len() implies #[trigger] schedule_carries(sorted, m) by {
            assert(packets_cover(pk.0, m));
            let j = choose|j: int| 0 <= j < pk.0.len() && (#[trigger] pk.0[j]).0 <= m < pk.0[j].0 + pk.0[j].1;
            assert(delivers(st.events, pk.0[j]));
            let k = choose|k: int| 0 <= k < st.events.len() && is_packet(#[trigger] st.events[k], pk.0[j]);
            let e = st.events[k];
            assert(all[k] == e);
            assert(all.contains(e));
            assert(all.to_multiset().count(e) > 0);
            assert(sorted.to_multiset().count(e) > 0);
            assert(sorted.contains(e));
            let k2 = choose|k2: int| 0 <= k2 < sorted.len() && sorted[k2] == e;
            assert(carries(sorted[k2], m));
        }
    }
}


/// The events of a schedule come in the schedule order: by release time, then feed, then
/// kind, then sequence number (packets with all of these equal by first message).
pub proof fn law_schedule_sorted(gt: Seq<u8>, cfg: ReplayConfig, ds: Seq<i64>)
    ensures
        vstd::relations::sorted_by(schedule_events(gt, cfg, ds), sched_order()),
        forall|i: int, j: int|
            0 <= i < j < schedule_events(gt, cfg, ds).len() ==> (#[trigger] schedule_events(gt, cfg, ds)[i]).release_vt
                <= (#[trigger] schedule_events(gt, cfg, ds)[j]).release_vt,
{
    crate::transport::sched_types::lemma_sched_order_total();
    let lens = scan_lens(gt, 0);
    if lens.len() > 0 {
        let st = plan_all(gt, cfg, ds);
        let fvt = max_release(st.events);
        let nseq = final_next_seq(cfg.session_change_at_msg, lens.len() as int) as u64;
        let all = st.events + closing_events(cfg, fvt, nseq, 0) + closing_events(cfg, fvt, nseq, 1);
        all.lemma_sort_by_ensures(sched_order());
    }
    let evs = schedule_events(gt, cfg, ds);
    assert forall|i: int, j: int| 0 <= i < j < evs.len() implies (#[trigger] evs[i]).release_vt <= (#[trigger] evs[j]).release_vt by {
        assert(sched_order()(evs[i], evs[j]));
    }
}

} // verus!
