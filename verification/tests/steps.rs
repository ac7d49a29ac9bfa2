use native_connectome::api::vdm_connectome_new;
use native_connectome::binary64::{py_round, ZERO};
use native_connectome::connectome::advance::StepNumbers;
use native_connectome::connectome::report::VdmMetrics;
use native_connectome::connectome::run::Step;
use native_connectome::connectome::step::StepPlan;
use native_connectome::connectome::{ColdUpdate, Draw, NativeConnectome};
use native_connectome::members::ascending_members;
use std::collections::BTreeSet;

const EPS_BOND: f64 = 200.0;
const BETA_DEBT: f64 = 0.1;
const D_DIFF: f64 = 0.05;
const TAU: f64 = 2.0;
const C_SIGNAL: f64 = 0.15811388300841897;

fn number(b: u64) -> f64 {
    f64::from_bits(b)
}

fn well(x: f64) -> f64 {
    number(py_round(x.to_bits()))
}

fn tau_of(debt: f64) -> f64 {
    TAU * (BETA_DEBT * debt).exp()
}

fn bond_slope(psi: f64) -> f64 {
    2.0 * psi * (1.0 - psi) * (1.0 - 2.0 * psi)
}

fn seeded(n: usize, edges: &[(i32, i32, f64)], transport: f64, geom: f64) -> NativeConnectome {
    let us: Vec<i32> = edges.iter().map(|e| e.0).collect();
    let vs: Vec<i32> = edges.iter().map(|e| e.1).collect();
    let geoms: Vec<u64> = edges.iter().map(|e| e.2.to_bits()).collect();
    let graph = vdm_connectome_new(n, &us, &vs, &geoms).expect("there are nodes");
    let most = graph.max_degree();
    let levels: Vec<f64> = (0..n).map(|i| graph.row(i).len() as f64 / most as f64).collect();
    let sum: f64 = levels.iter().sum();
    let sumsq: f64 = levels.iter().map(|x| x * x).sum();
    NativeConnectome::new(
        graph,
        levels.iter().map(|x| x.to_bits()).collect(),
        sum.to_bits(),
        sumsq.to_bits(),
        transport.to_bits(),
        geom.to_bits(),
    )
}

fn drive(conn: &mut NativeConnectome, stimuli: &[(i32, f64)]) {
    let indices: Vec<i32> = stimuli.iter().map(|s| s.0).collect();
    let amplitudes: Vec<u64> = stimuli.iter().map(|s| s.1.to_bits()).collect();
    conn.stimulate(&indices, &amplitudes);
}

fn draw_at(conn: &NativeConnectome, node: usize, emit_index: usize) -> Draw {
    let row: Vec<f64> = conn.graph().row(node).iter().map(|e| number(e.psi_curr)).collect();
    let w_sum: f64 = row.iter().sum();
    let mut u = number(conn.phi_dot()[node]).abs() * (1.0 + emit_index as f64);
    u -= u as i64 as f64;
    let mut share = 0.0;
    let mut cdf = Vec::new();
    for psi in row {
        share += psi / w_sum;
        cdf.push(f64::to_bits(share));
    }
    Draw { w_sum: w_sum.to_bits(), u: u.to_bits(), cdf }
}

fn relaxed(conn: &NativeConnectome, node: usize, gap: i32) -> ColdUpdate {
    let debt = number(conn.debt()[node]);
    let old = number(conn.phi_curr()[node]);
    let home = well(old);
    let decay = (-(gap as f64) / tau_of(debt)).exp();
    let new = home + (old - home) * decay;
    let prev = home + (number(conn.phi_prev()[node]) - home) * decay;
    let bond_decay = (-(gap as f64) / EPS_BOND).exp();
    let psi = conn
        .graph()
        .row(node)
        .iter()
        .map(|e| {
            let psi = number(e.psi_curr);
            (well(psi) + (psi - well(psi)) * bond_decay).to_bits()
        })
        .collect();
    ColdUpdate {
        phi_curr: new.to_bits(),
        phi_prev: prev.to_bits(),
        debt: (debt * decay).to_bits(),
        phi_sum: (number(conn.phi_sum()) + (new - old)).to_bits(),
        phi_sumsq: (number(conn.phi_sumsq()) + (new * new - old * old)).to_bits(),
        psi,
    }
}

fn numbers_for(conn: &NativeConnectome, plan: &StepPlan) -> StepNumbers {
    let list = plan.compute_list.as_slice();
    let phi: Vec<f64> = conn.phi_curr().iter().map(|x| number(*x)).collect();
    let mut phi_raw = Vec::new();
    let mut bond_raw = Vec::new();
    for &i in list {
        let tau = tau_of(number(conn.debt()[i]));
        let slope = 2.0 * phi[i] * (1.0 - phi[i]) * (1.0 - 2.0 * phi[i]);
        let mut acc = 0.0;
        let mut row = Vec::new();
        for e in conn.graph().row(i) {
            let (psi, prev) = (number(e.psi_curr), number(e.psi_prev));
            acc += psi * number(e.geom_weight) * (phi[e.target] - phi[i]);
            let pull = 0.5 * (phi[e.target] - phi[i]) * (phi[e.target] - phi[i]);
            let rhs = -bond_slope(psi) + pull;
            let raw = (rhs + (2.0 * EPS_BOND + 1.0) * psi - EPS_BOND * prev) / (EPS_BOND + 1.0);
            row.push(raw.to_bits());
        }
        let laplacian = number(conn.transport_renormalization()) * acc;
        let rhs = D_DIFF * laplacian - slope + number(conn.j_ext()[i]);
        let raw = (rhs + (2.0 * tau + 1.0) * phi[i] - tau * number(conn.phi_prev()[i]))
            / (tau + 1.0);
        phi_raw.push(raw.to_bits());
        bond_raw.push(row);
    }
    let next: Vec<f64> = conn.next_field(list, &phi_raw).iter().map(|x| number(*x)).collect();
    let mut delta = 0.0;
    let mut delta_sq = 0.0;
    for &i in list {
        delta += next[i] - phi[i];
        delta_sq += next[i] * next[i] - phi[i] * phi[i];
    }
    let dots: Vec<f64> = list.iter().map(|&i| next[i] - phi[i]).collect();
    let mean = dots.iter().sum::<f64>() / dots.len() as f64;
    let var = dots.iter().map(|x| (*x - mean) * (*x - mean)).sum::<f64>() / dots.len() as f64;
    let half_var = (0.5 * var).to_bits();
    let k_t = number(conn.next_k_t(list, half_var));
    let mut debt = Vec::new();
    for (k, &i) in list.iter().enumerate() {
        let more = number(conn.debt()[i]) + dots[k].abs();
        debt.push((more * (-1.0 / tau_of(more)).exp()).to_bits());
    }
    StepNumbers {
        phi_raw,
        bond_raw,
        debt,
        phi_dot: (0..conn.len()).map(|i| (next[i] - phi[i]).to_bits()).collect(),
        phi_sum: (number(conn.phi_sum()) + delta).to_bits(),
        phi_sumsq: (number(conn.phi_sumsq()) + delta_sq).to_bits(),
        floor_root: (2.0 * number(conn.k_t()) / EPS_BOND).sqrt().to_bits(),
        half_var,
        pos_thresh: k_t.max(0.0).sqrt().to_bits(),
        vel_thresh: (2.0 * k_t.max(0.0)).sqrt().to_bits(),
    }
}

/// What a step asked for on its way.
#[derive(Default)]
struct Asked {
    draws: usize,
    gaps: usize,
}

fn step(conn: &mut NativeConnectome, tick: i32, asked: &mut Asked) -> (StepPlan, VdmMetrics) {
    let start = conn.begin_step(tick);
    let two_k_t = 2.0 * number(conn.k_t());
    let ratios: Vec<u64> = start
        .candidates
        .iter()
        .map(|&i| {
            let dot = number(conn.phi_dot()[i]);
            (dot * dot / two_k_t - 1.0).to_bits()
        })
        .collect();
    let v_root = two_k_t.sqrt();
    let reach = C_SIGNAL / v_root;
    let mut next = conn.emit(start, &ratios, v_root.to_bits(), reach.to_bits());
    loop {
        next = match next {
            Step::Walk(walk) => {
                let at = walk.run.pending().expect("a walker is under way");
                asked.draws += 1;
                let draw = draw_at(conn, at.node, at.emit_index().expect("a count"));
                conn.hop(walk, &draw)
            }
            Step::Visit(visits) => {
                let node = visits.plan.active_list[visits.next];
                let gap = conn.cold_gap(node).expect("the node was out of sight");
                asked.gaps += 1;
                let update = relaxed(conn, node, gap);
                conn.catch_up(visits, update)
            }
            Step::Compute(plan) => {
                let numbers = numbers_for(conn, &plan);
                let counts = conn.advance(&plan, &numbers);
                let n = conn.len() as f64;
                let phi_mean = number(conn.phi_sum()) / n;
                let spread = number(conn.phi_sumsq()) / n - phi_mean * phi_mean;
                let degree = conn.graph().directed_edge_count() as f64 / n;
                let metrics = conn.metrics(
                    &plan,
                    &counts,
                    phi_mean.to_bits(),
                    spread.to_bits(),
                    degree.to_bits(),
                );
                return (plan, metrics);
            }
        };
    }
}

/// A bond's end in [`Plain`]: the other node, the strength now and before, and the weight.
#[derive(Clone, Copy)]
struct PlainEdge {
    target: usize,
    psi: f64,
    psi_prev: f64,
    geom: f64,
}

/// The model on floating-point numbers, in one piece.
struct Plain {
    adj: Vec<Vec<PlainEdge>>,
    phi: Vec<f64>,
    phi_prev: Vec<f64>,
    phi_dot: Vec<f64>,
    debt: Vec<f64>,
    last_visit: Vec<i32>,
    observed: BTreeSet<usize>,
    unsettled: BTreeSet<usize>,
    j_ext: Vec<f64>,
    driven: BTreeSet<usize>,
    phi_sum: f64,
    phi_sumsq: f64,
    k_t: f64,
    transport: f64,
    geom: f64,
}

impl Plain {
    fn new(n: usize, edges: &[(i32, i32, f64)], transport: f64, geom: f64) -> Self {
        let mut adj: Vec<Vec<PlainEdge>> = vec![Vec::new(); n];
        for &(u, v, w) in edges {
            if u < 0 || v < 0 {
                continue;
            }
            let (u, v) = (u as usize, v as usize);
            if u < n && v < n && u != v && !adj[u].iter().any(|e| e.target == v) {
                adj[u].push(PlainEdge { target: v, psi: 0.5, psi_prev: 0.5, geom: w });
                adj[v].push(PlainEdge { target: u, psi: 0.5, psi_prev: 0.5, geom: w });
            }
        }
        let most = adj.iter().map(|row| row.len()).max().unwrap_or(1).max(1);
        let phi: Vec<f64> = adj.iter().map(|row| row.len() as f64 / most as f64).collect();
        let mut last_visit = vec![-1; n];
        let mut observed = BTreeSet::new();
        let mut unsettled = BTreeSet::new();
        for i in 0..n {
            if adj[i].len() < most {
                last_visit[i] = 0;
                observed.insert(i);
                if (phi[i] - phi[i].round_ties_even()).abs() > 0.0 {
                    unsettled.insert(i);
                }
            }
        }
        Plain {
            phi_sum: phi.iter().sum(),
            phi_sumsq: phi.iter().map(|x| x * x).sum(),
            phi_prev: phi.clone(),
            phi,
            adj,
            phi_dot: vec![0.0; n],
            debt: vec![0.0; n],
            last_visit,
            observed,
            unsettled,
            j_ext: vec![0.0; n],
            driven: BTreeSet::new(),
            k_t: 0.0,
            transport,
            geom,
        }
    }

    fn drive(&mut self, stimuli: &[(i32, f64)]) {
        for &(i, amp) in stimuli {
            if i >= 0 && (i as usize) < self.phi.len() {
                self.j_ext[i as usize] = amp;
                if amp.abs() > 1e-15 {
                    self.driven.insert(i as usize);
                }
            }
        }
    }

    fn bonded(&self, u: usize, v: usize) -> bool {
        self.adj[u].iter().any(|e| e.target == v)
    }

    fn pick(&self, node: usize, emit_index: usize) -> Option<usize> {
        let weight: f64 = self.adj[node].iter().map(|e| e.psi).sum();
        if self.adj[node].is_empty() || weight < 1e-30 {
            return None;
        }
        let mut u = self.phi_dot[node].abs() * (1.0 + emit_index as f64);
        u -= u as i64 as f64;
        let mut share = 0.0;
        for e in &self.adj[node] {
            share += e.psi / weight;
            if share >= u {
                return Some(e.target);
            }
        }
        self.adj[node].last().map(|e| e.target)
    }

    fn relax(&mut self, i: usize, gap: i32) {
        let tau = tau_of(self.debt[i]);
        let old = self.phi[i];
        let home = old.round_ties_even();
        let decay = (-(gap as f64) / tau).exp();
        self.phi[i] = home + (old - home) * decay;
        self.phi_prev[i] = home + (self.phi_prev[i] - home) * decay;
        self.phi_sum += self.phi[i] - old;
        self.phi_sumsq += self.phi[i] * self.phi[i] - old * old;
        let bond_decay = (-(gap as f64) / EPS_BOND).exp();
        for e in &mut self.adj[i] {
            let home = e.psi.round_ties_even();
            e.psi = home + (e.psi - home) * bond_decay;
        }
        self.debt[i] *= (-(gap as f64) / tau).exp();
    }

    fn step(&mut self, tick: i32) -> Vec<u64> {
        let n = self.phi.len();
        let stim: Vec<usize> =
            self.driven.iter().copied().filter(|&i| self.j_ext[i].abs() > 1e-15).collect();
        let mut candidates = self.unsettled.clone();
        candidates.extend(&stim);
        let mut walkers: u64 = 0;
        let mut active = BTreeSet::new();
        let mut warm = BTreeSet::new();
        let mut proposed: BTreeSet<(usize, usize)> = BTreeSet::new();
        if self.k_t > 0.0 {
            let v_th = (2.0 * self.k_t).sqrt();
            let h_max = ((C_SIGNAL / v_th).floor() as usize).max(1);
            let fast = |i: usize| self.phi_dot[i].abs() > v_th;
            for &i in &candidates {
                let ratio = self.phi_dot[i] * self.phi_dot[i] / (2.0 * self.k_t) - 1.0;
                let count = ratio.max(0.0).floor() as usize;
                if count > 0 {
                    active.insert(i);
                }
                for emission in 0..count {
                    let mut at = i;
                    for hop in 0..h_max {
                        if hop > 0 && self.phi_dot[at].abs() <= v_th {
                            break;
                        }
                        let Some(to) = self.pick(at, emission + hop) else {
                            break;
                        };
                        walkers += 1;
                        active.insert(at);
                        active.insert(to);
                        if fast(at) {
                            for e in &self.adj[to] {
                                let k = e.target;
                                if k != at && fast(k) && !self.bonded(at, k) {
                                    proposed.insert((at.min(k), at.max(k)));
                                }
                            }
                        }
                        at = to;
                    }
                }
            }
            for &i in &active {
                for e in &self.adj[i] {
                    if !active.contains(&e.target) {
                        warm.insert(e.target);
                    }
                }
            }
        }
        for &i in &stim {
            active.insert(i);
            for e in &self.adj[i] {
                if !active.contains(&e.target) {
                    warm.insert(e.target);
                }
            }
        }
        for &i in &stim {
            self.last_visit[i] = tick;
            self.observed.insert(i);
        }
        for &i in &warm {
            if self.last_visit[i] < 0 {
                self.last_visit[i] = tick;
            }
            self.observed.insert(i);
        }
        let mut computed: BTreeSet<usize> = active.union(&warm).copied().collect();
        computed.extend(&self.unsettled);
        for &i in &active {
            if self.last_visit[i] >= 0 && self.last_visit[i] < tick - 1 {
                self.relax(i, tick - self.last_visit[i]);
            }
            self.last_visit[i] = tick;
            self.observed.insert(i);
        }
        let mut new = self.phi.clone();
        for &i in &computed {
            let tau = tau_of(self.debt[i]);
            let phi = self.phi[i];
            let mut acc = 0.0;
            for e in &self.adj[i] {
                acc += e.psi * e.geom * (self.phi[e.target] - phi);
            }
            let slope = 2.0 * phi * (1.0 - phi) * (1.0 - 2.0 * phi);
            let rhs = D_DIFF * (self.transport * acc) - slope + self.j_ext[i];
            let raw = (rhs + (2.0 * tau + 1.0) * phi - tau * self.phi_prev[i]) / (tau + 1.0);
            new[i] = raw.clamp(0.0, 1.0);
        }
        let mut delta = 0.0;
        let mut delta_sq = 0.0;
        for &i in &computed {
            delta += new[i] - self.phi[i];
            delta_sq += new[i] * new[i] - self.phi[i] * self.phi[i];
        }
        self.phi_sum += delta;
        self.phi_sumsq += delta_sq;
        for &i in &computed {
            for k in 0..self.adj[i].len() {
                let e = self.adj[i][k];
                let d = self.phi[e.target] - self.phi[i];
                let rhs = -bond_slope(e.psi) + 0.5 * d * d;
                let raw = (rhs + (2.0 * EPS_BOND + 1.0) * e.psi - EPS_BOND * e.psi_prev)
                    / (EPS_BOND + 1.0);
                self.adj[i][k].psi_prev = e.psi;
                self.adj[i][k].psi = raw.clamp(0.0, 1.0);
            }
        }
        let made = proposed.len();
        for (u, v) in proposed {
            let geom = self.geom;
            self.adj[u].push(PlainEdge { target: v, psi: 0.0, psi_prev: 0.0, geom });
            self.adj[v].push(PlainEdge { target: u, psi: 0.0, psi_prev: 0.0, geom });
        }
        let mut broken = 0;
        if self.k_t > 0.0 {
            let floor = (2.0 * self.k_t / EPS_BOND).sqrt();
            for &i in &computed {
                let dead: Vec<usize> =
                    self.adj[i].iter().filter(|e| e.psi < floor).map(|e| e.target).collect();
                broken += dead.len();
                for j in dead {
                    self.adj[i].retain(|e| e.target != j);
                    self.adj[j].retain(|e| e.target != i);
                }
            }
        }
        let dots: Vec<f64> = computed.iter().map(|&i| new[i] - self.phi[i]).collect();
        if dots.len() > 1 {
            let mean = dots.iter().sum::<f64>() / dots.len() as f64;
            let var =
                dots.iter().map(|x| (*x - mean) * (*x - mean)).sum::<f64>() / dots.len() as f64;
            self.k_t = (0.5 * var).max(0.0);
        }
        for (k, &i) in computed.iter().enumerate() {
            self.debt[i] += dots[k].abs();
            self.debt[i] *= (-1.0 / tau_of(self.debt[i])).exp();
        }
        let mut next_unsettled = BTreeSet::new();
        for (k, &i) in computed.iter().enumerate() {
            if (new[i] - new[i].round_ties_even()).abs() > self.k_t.sqrt()
                || dots[k].abs() > (2.0 * self.k_t).sqrt()
            {
                next_unsettled.insert(i);
            }
        }
        self.unsettled = next_unsettled;
        self.phi_prev = self.phi.clone();
        self.phi = new;
        for i in 0..n {
            self.phi_dot[i] = self.phi[i] - self.phi_prev[i];
        }
        for i in std::mem::take(&mut self.driven) {
            self.j_ext[i] = 0.0;
        }
        let edges: usize = self.adj.iter().map(|row| row.len()).sum();
        let mean = self.phi_sum / n as f64;
        let top = computed.iter().map(|&i| self.phi_dot[i].abs()).fold(0.0, f64::max);
        vec![
            tick as u64,
            walkers,
            active.len() as u64,
            warm.len() as u64,
            computed.len() as u64,
            made as u64,
            broken as u64,
            (edges / 2) as u64,
            self.k_t.to_bits(),
            mean.to_bits(),
            (self.phi_sumsq / n as f64 - mean * mean).max(0.0).to_bits(),
            top.to_bits(),
            (edges as f64 / n as f64).to_bits(),
            stim.len() as u64,
            self.observed.len() as u64,
            self.unsettled.len() as u64,
        ]
    }
}

fn flat(m: &VdmMetrics) -> Vec<u64> {
    vec![
        m.tick as u64,
        m.n_walkers,
        m.n_active,
        m.n_warm,
        m.n_computed,
        m.bonds_instantiated,
        m.bonds_removed,
        m.bonds_total,
        m.k_t,
        m.phi_mean,
        m.phi_var,
        m.phi_dot_max,
        m.mean_degree,
        m.stimulus_active,
        m.n_observed,
        m.n_unsettled,
    ]
}

fn encoded(values: &[f64]) -> Vec<u64> {
    values.iter().map(|x| x.to_bits()).collect()
}

fn assert_same(conn: &NativeConnectome, plain: &Plain) {
    assert_eq!(conn.phi_curr(), &encoded(&plain.phi));
    assert_eq!(conn.phi_prev(), &encoded(&plain.phi_prev));
    assert_eq!(conn.phi_dot(), &encoded(&plain.phi_dot));
    assert_eq!(conn.debt(), &encoded(&plain.debt));
    assert_eq!(conn.j_ext(), &encoded(&plain.j_ext));
    assert_eq!(conn.last_visit(), &plain.last_visit);
    assert_eq!(conn.observed(), &plain.observed);
    assert_eq!(conn.unsettled(), &plain.unsettled);
    assert_eq!(conn.k_t(), plain.k_t.to_bits());
    assert_eq!(conn.phi_sum(), plain.phi_sum.to_bits());
    assert_eq!(conn.phi_sumsq(), plain.phi_sumsq.to_bits());
    for i in 0..conn.len() {
        let row: Vec<(usize, u64, u64, u64)> = conn
            .graph()
            .row(i)
            .iter()
            .map(|e| (e.target, e.psi_curr, e.psi_prev, e.geom_weight))
            .collect();
        let plain_row: Vec<(usize, u64, u64, u64)> = plain.adj[i]
            .iter()
            .map(|e| (e.target, e.psi.to_bits(), e.psi_prev.to_bits(), e.geom.to_bits()))
            .collect();
        assert_eq!(row, plain_row);
    }
}

struct Lcg(u64);

impl Lcg {
    fn below(&mut self, n: u64) -> u64 {
        self.0 = self.0.wrapping_mul(6364136223846793005).wrapping_add(1442695040888963407);
        (self.0 >> 33) % n
    }

    fn share(&mut self) -> f64 {
        self.below(1_000_000) as f64 / 1_000_000.0
    }
}

/// A ring of `n` nodes with `n` chords.
fn ring(n: usize, seed: u64) -> Vec<(i32, i32, f64)> {
    let mut lcg = Lcg(seed);
    let mut edges = Vec::new();
    for i in 0..n {
        edges.push((i as i32, ((i + 1) % n) as i32, 1.0 + lcg.share()));
    }
    for _ in 0..n {
        edges.push((lcg.below(n as u64) as i32 - 1, lcg.below(n as u64 + 2) as i32, 0.5));
    }
    edges
}

#[test]
fn steps_agree_with_the_model_in_one_piece() {
    let mut asked = Asked::default();
    let mut walkers = 0;
    let mut made = 0;
    let mut broken = 0;
    for seed in 1..7 {
        let n = 10 + 5 * seed as usize;
        let edges = ring(n, seed);
        let mut conn = seeded(n, &edges, 0.75, 1.25);
        let mut plain = Plain::new(n, &edges, 0.75, 1.25);
        assert_same(&conn, &plain);
        let mut lcg = Lcg(seed * 77);
        let mut tick = 0;
        for round in 0..120 {
            tick += 1 + if round % 9 == 8 { lcg.below(6) as i32 } else { 0 };
            if round % 4 == 0 {
                let mut stimuli = Vec::new();
                for _ in 0..3 {
                    stimuli.push((lcg.below(n as u64 + 2) as i32 - 1, lcg.share() * 4.0 - 1.0));
                }
                drive(&mut conn, &stimuli);
                plain.drive(&stimuli);
            }
            let (_, metrics) = step(&mut conn, tick, &mut asked);
            let report = plain.step(tick);
            assert_eq!(flat(&metrics), report, "seed {} tick {}", seed, tick);
            assert_same(&conn, &plain);
            walkers += metrics.n_walkers;
            made += metrics.bonds_instantiated;
            broken += metrics.bonds_removed;
        }
    }
    assert!(walkers > 0);
    assert!(made > 0);
    assert!(broken > 0);
    assert!(asked.gaps > 0);
    assert!(asked.draws as u64 >= walkers);
}

#[test]
fn at_rest_a_step_asks_for_no_draw() {
    let mut conn = seeded(12, &ring(12, 5), 1.0, 1.0);
    assert_eq!(conn.k_t(), ZERO);
    let mut asked = Asked::default();
    let (plan, metrics) = step(&mut conn, 1, &mut asked);
    assert_eq!(asked.draws, 0);
    assert_eq!(metrics.n_walkers, 0);
    assert_eq!(metrics.n_active, 0);
    assert_eq!(metrics.n_warm, 0);
    assert_eq!(plan.bond_pairs, Vec::<(usize, usize)>::new());
}

#[test]
fn stimulated_nodes_and_their_neighbors_come_into_sight() {
    let edges: Vec<(i32, i32, f64)> = (0..6).map(|i| (i, (i + 1) % 6, 1.0)).collect();
    let mut conn = seeded(6, &edges, 1.0, 1.0);
    assert!(conn.observed().is_empty());
    drive(&mut conn, &[(2, 0.5)]);
    let (plan, metrics) = step(&mut conn, 4, &mut Asked::default());
    assert_eq!(plan.active_list, vec![2]);
    assert_eq!(plan.compute_list, vec![1, 2, 3]);
    assert_eq!(metrics.stimulus_active, 1);
    assert_eq!(metrics.n_warm, 2);
    assert_eq!(conn.last_visit(), &vec![-1, 4, 4, 4, -1, -1]);
    assert_eq!(ascending_members(conn.observed()), vec![1, 2, 3]);
    assert_eq!(conn.j_ext(), &vec![ZERO; 6]);
}

#[test]
fn a_stimulated_neighbor_may_be_warm_and_active() {
    let edges: Vec<(i32, i32, f64)> = (0..6).map(|i| (i, (i + 1) % 6, 1.0)).collect();
    let mut conn = seeded(6, &edges, 1.0, 1.0);
    drive(&mut conn, &[(2, 0.5), (3, 0.5)]);
    let (plan, metrics) = step(&mut conn, 1, &mut Asked::default());
    assert_eq!(plan.active_list, vec![2, 3]);
    assert_eq!(plan.compute_list, vec![1, 2, 3, 4]);
    assert_eq!(metrics.n_warm, 3);
}

#[test]
fn observed_nodes_stay_observed() {
    let mut conn = seeded(20, &ring(20, 3), 1.0, 1.0);
    let mut asked = Asked::default();
    let mut before = conn.observed().clone();
    for tick in 1..60 {
        if tick % 5 == 1 {
            drive(&mut conn, &[(tick % 20, 1.5)]);
        }
        let (plan, metrics) = step(&mut conn, tick, &mut asked);
        assert!(before.is_subset(conn.observed()));
        before = conn.observed().clone();
        for &i in &plan.active_list {
            assert_eq!(conn.last_visit()[i], tick);
        }
        for i in plan.active_list.iter() {
            assert!(plan.compute_list.contains(i));
        }
        for i in conn.unsettled() {
            assert!(plan.compute_list.contains(i));
        }
        assert!(metrics.stimulus_active <= metrics.n_active);
        assert!(metrics.n_active <= metrics.n_computed);
        assert!(metrics.n_warm <= metrics.n_computed);
        assert!(metrics.n_unsettled <= metrics.n_computed);
        assert!(metrics.n_computed <= metrics.n_observed && metrics.n_observed <= 20);
    }
}

#[test]
fn only_computed_nodes_change() {
    let mut conn = seeded(20, &ring(20, 9), 1.0, 1.0);
    let mut asked = Asked::default();
    for tick in 1..40 {
        drive(&mut conn, &[((7 * tick) % 20, 0.75)]);
        let field = conn.phi_curr().clone();
        let debt = conn.debt().clone();
        let (plan, metrics) = step(&mut conn, tick, &mut asked);
        let mut top = 0.0f64;
        for i in 0..20 {
            if plan.compute_list.contains(&i) {
                assert!((0.0..=1.0).contains(&number(conn.phi_curr()[i])));
            } else {
                assert_eq!(conn.phi_curr()[i], field[i]);
                assert_eq!(conn.debt()[i], debt[i]);
            }
            top = top.max(number(conn.phi_dot()[i]).abs());
        }
        assert_eq!(metrics.phi_dot_max, top.to_bits());
    }
}

#[test]
fn the_balance_of_bonds() {
    let mut conn = seeded(25, &ring(25, 4), 1.0, 1.0);
    let mut asked = Asked::default();
    for tick in 1..80 {
        if tick % 3 == 0 {
            drive(&mut conn, &[((11 * tick) % 25, 2.0)]);
        }
        let before = (conn.graph().directed_edge_count() / 2) as u64;
        let bonds: Vec<(usize, usize)> = (0..25)
            .flat_map(|u| (0..25).map(move |v| (u, v)))
            .filter(|&(u, v)| conn.graph().has_bond(u, v))
            .collect();
        let k_t = number(conn.k_t());
        let weights: Vec<Vec<(usize, u64)>> = (0..25)
            .map(|u| conn.graph().row(u).iter().map(|e| (e.target, e.geom_weight)).collect())
            .collect();
        let (plan, metrics) = step(&mut conn, tick, &mut asked);
        if k_t == 0.0 {
            assert_eq!((metrics.bonds_instantiated, metrics.bonds_removed), (0, 0));
        } else {
            assert!(metrics.bonds_removed >= metrics.bonds_instantiated);
        }
        for u in 0..25 {
            for e in conn.graph().row(u) {
                assert!(bonds.contains(&(u, e.target)));
                assert!(weights[u].contains(&(e.target, e.geom_weight)));
            }
        }
        assert_eq!(metrics.bonds_total + metrics.bonds_removed, before + metrics.bonds_instantiated);
        assert_eq!(metrics.bonds_instantiated, plan.bond_pairs.len() as u64);
        for &(u, v) in &plan.bond_pairs {
            assert!(u < v);
            assert!(!bonds.contains(&(u, v)));
        }
    }
}

#[test]
fn a_still_connectome_stays_still() {
    let edges: Vec<(i32, i32, f64)> = (0..6).map(|i| (i, (i + 1) % 6, 1.0)).collect();
    let mut conn = seeded(6, &edges, 1.0, 1.0);
    let field = conn.phi_curr().clone();
    let (plan, metrics) = step(&mut conn, 1, &mut Asked::default());
    assert_eq!(plan.compute_list, Vec::<usize>::new());
    assert_eq!(conn.phi_curr(), &field);
    assert_eq!(conn.phi_sum(), 6.0f64.to_bits());
    assert_eq!(metrics.bonds_total, 6);
    assert_eq!(metrics.n_observed, 0);
    assert_eq!(metrics.phi_mean, 1.0f64.to_bits());
    assert_eq!(metrics.phi_var, ZERO);
    assert_eq!(metrics.mean_degree, 2.0f64.to_bits());
}

#[test]
fn every_state_is_in_range() {
    let n = 25;
    let mut conn = seeded(n, &ring(n, 8), 0.75, 1.25);
    let mut asked = Asked::default();
    let mut tick = 0;
    for round in 0..150 {
        tick += if round % 7 == 6 { 4 } else { 1 };
        if round % 3 == 0 {
            drive(&mut conn, &[((5 * round) % n as i32, 3.0), ((11 * round) % n as i32, -2.0)]);
        }
        step(&mut conn, tick, &mut asked);
        assert!(number(conn.k_t()) >= 0.0);
        for i in 0..n {
            assert!((0.0..=1.0).contains(&number(conn.phi_curr()[i])));
            assert!((0.0..=1.0).contains(&number(conn.phi_prev()[i])));
            assert!(number(conn.debt()[i]) >= 0.0);
            for e in conn.graph().row(i) {
                assert!((0.0..=1.0).contains(&number(e.psi_curr)));
                assert!((0.0..=1.0).contains(&number(e.psi_prev)));
                let back = conn.graph().row(e.target).iter().find(|b| b.target == i);
                assert_eq!(back.map(|b| b.geom_weight), Some(e.geom_weight));
            }
        }
    }
    assert!(asked.gaps > 0);
}

#[test]
fn observed_nodes_are_the_visited_ones() {
    let n = 30;
    let edges: Vec<(i32, i32, f64)> = (0..n).map(|i| (i, (i + 1) % n, 1.0)).collect();
    let mut conn = seeded(n as usize, &edges, 1.0, 1.0);
    let mut asked = Asked::default();
    for tick in 0..25 {
        if tick % 8 == 0 {
            drive(&mut conn, &[(tick, 0.25)]);
        }
        step(&mut conn, tick, &mut asked);
        for i in 0..n as usize {
            assert_eq!(conn.observed().contains(&i), conn.last_visit()[i] >= 0);
            if !conn.observed().contains(&i) {
                assert_eq!(conn.last_visit()[i], -1);
                assert_eq!(number(conn.phi_curr()[i]), 1.0);
                assert_eq!(number(conn.phi_prev()[i]), 1.0);
                assert_eq!((conn.debt()[i], conn.phi_dot()[i]), (ZERO, ZERO));
            }
        }
    }
    assert!(conn.observed().len() < n as usize);
}
