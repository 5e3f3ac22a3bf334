use vstd::prelude::*;
use crate::cluster::{lemma_best_index_bounds, tokens_view, parameters_of, DrainParseOutput, LogCluster, Template};
use crate::signature::{signature, signature_of};
use crate::tokenize::{tokenize, tokens_of};

verus! {

/// The characters that separate the tokens of a line.
pub open spec fn line_delimiters() -> Seq<char> {
    seq![' ', '=', ',', ':']
}

/// A cluster with the first-token signature that routes lines to it.
#[derive(Debug, PartialEq)]
pub struct SignatureCluster {
    pub signature: String,
    pub cluster: LogCluster,
}

/// The clusters of the lines of one length.
#[derive(Debug, PartialEq)]
pub struct LengthGroup {
    pub len: usize,
    pub clusters: Vec<SignatureCluster>,
}

/// The clustering engine: lines are routed by length, then by first-token
/// signature, to a cluster; template ids come from one counter.
#[derive(Debug, PartialEq)]
pub struct DrainParser {
    pub new_id: usize,
    pub parsers: Vec<LengthGroup>,
}

/// Number of templates in the first `k` clusters of a group.
pub open spec fn group_total(cs: Seq<SignatureCluster>, k: int) -> nat
    decreases k,
{
    if k <= 0 {
        0
    } else {
        group_total(cs, k - 1) + cs[k - 1].cluster.templates@.len()
    }
}

/// Number of templates in the first `k` groups.
pub open spec fn total(gs: Seq<LengthGroup>, k: int) -> nat
    decreases k,
{
    if k <= 0 {
        0
    } else {
        total(gs, k - 1) + group_total(gs[k - 1].clusters@, gs[k - 1].clusters.len() as int)
    }
}

impl DrainParser {
    /// The id that the next new template gets.
    pub open spec fn next_id_view(&self) -> usize {
        self.new_id
    }

    pub open spec fn valid_pos(&self, g: int, e: int, t: int) -> bool {
        &&& 0 <= g < self.parsers.len()
        &&& 0 <= e < self.parsers[g].clusters.len()
        &&& 0 <= t < self.parsers[g].clusters[e].cluster.templates.len()
    }

    pub open spec fn tmpl(&self, g: int, e: int, t: int) -> Template {
        self.parsers[g].clusters[e].cluster.templates[t]
    }

    /// The routing index is a function of (length, signature), each cluster
    /// holds templates of its group's length, and ids are distinct and below
    /// the counter.
    pub open spec fn wf(&self) -> bool {
        &&& self.next_id_view() >= 1
        &&& forall|g1: int, g2: int|
            0 <= g1 < self.parsers.len() && 0 <= g2 < self.parsers.len() && g1 != g2
                ==> #[trigger] self.parsers[g1].len != #[trigger] self.parsers[g2].len
        &&& forall|g: int, e1: int, e2: int|
            0 <= g < self.parsers.len() && 0 <= e1 < self.parsers[g].clusters.len()
                && 0 <= e2 < self.parsers[g].clusters.len() && e1 != e2
                ==> #[trigger] self.parsers[g].clusters[e1].signature@
                != #[trigger] self.parsers[g].clusters[e2].signature@
        &&& forall|g: int, e: int|
            0 <= g < self.parsers.len() && 0 <= e < self.parsers[g].clusters.len() ==> {
                &&& #[trigger] self.parsers[g].clusters[e].cluster.len == self.parsers[g].len
                &&& self.parsers[g].clusters[e].cluster.wf()
            }
        &&& forall|g: int, e: int, t: int| #[trigger]
            self.valid_pos(g, e, t) ==> 1 <= self.tmpl(g, e, t).id < self.next_id_view()
        &&& forall|g1: int, e1: int, t1: int, g2: int, e2: int, t2: int|
            self.valid_pos(g1, e1, t1) && self.valid_pos(g2, e2, t2)
                && #[trigger] self.tmpl(g1, e1, t1).id == #[trigger] self.tmpl(g2, e2, t2).id
                ==> g1 == g2 && e1 == e2 && t1 == t2
    }

    /// No template's count is at its largest value.
    pub open spec fn counts_bounded(&self) -> bool {
        forall|g: int, e: int, t: int| #[trigger]
            self.valid_pos(g, e, t) ==> self.tmpl(g, e, t).count < usize::MAX
    }

    /// Number of templates over all clusters.
    pub open spec fn template_total(&self) -> nat {
        total(self.parsers@, self.parsers.len() as int)
    }

    /// The cluster at `(g, e)` takes the lines of length `l` with signature `sig`.
    pub open spec fn routes(&self, g: int, e: int, l: nat, sig: Seq<char>) -> bool {
        &&& 0 <= g < self.parsers.len()
        &&& 0 <= e < self.parsers[g].clusters.len()
        &&& self.parsers[g].len == l
        &&& self.parsers[g].clusters[e].signature@ == sig
    }

    /// Whether some cluster takes the lines of length `l` with signature `sig`.
    pub open spec fn has_route(&self, l: nat, sig: Seq<char>) -> bool {
        exists|g: int, e: int| self.routes(g, e, l, sig)
    }

    /// The cluster at `(g, e)` exists here and in `other`, with the same
    /// content.
    pub open spec fn same_cluster(&self, other: &Self, g: int, e: int) -> bool {
        &&& 0 <= g < other.parsers.len()
        &&& 0 <= e < other.parsers[g].clusters.len()
        &&& other.parsers[g].len == self.parsers[g].len
        &&& other.parsers[g].clusters[e].signature@ == self.parsers[g].clusters[e].signature@
        &&& other.parsers[g].clusters[e].cluster == self.parsers[g].clusters[e].cluster
    }

    /// An engine with no templates, whose first template gets id 1.
    pub fn new() -> (r: Self)
        ensures
            r.wf(),
            r.next_id_view() == 1,
            r.parsers@.len() == 0,
            r.template_total() == 0,
    {
        DrainParser { new_id: 1, parsers: Vec::new() }
    }

    /// The id that the next new template gets.
    pub fn next_id(&self) -> (r: usize)
        ensures
            r == self.next_id_view(),
    {
        self.new_id
    }

    /// Parses one line: its tokens go to the cluster of their length and
    /// first-token signature, made if missing, which updates or makes a
    /// template (see `LogCluster::process`). A new template takes the
    /// counter's id, and the counter moves on. A line without tokens gives
    /// `None` and changes nothing.
    pub fn parse(&mut self, input: &str) -> (r: Option<DrainParseOutput>)
        requires
            old(self).wf(),
            old(self).counts_bounded(),
            old(self).next_id_view() < usize::MAX,
        ensures
            final(self).wf(),
            ({
                let toks = tokens_of(input@, line_delimiters());
                let l = toks.len();
                let sig = signature_of(toks[0]);
                &&& l == 0 ==> r is None && *final(self) == *old(self)
                &&& l > 0 ==> r is Some && exists|g: int, e: int| {
                    let c = final(self).parsers[g].clusters[e].cluster;
                    let out = r->0;
                    let created = !old(self).routes(g, e, l, sig)
                        || old(self).parsers[g].clusters[e].cluster.creates_for(toks);
                    let k = if !old(self).routes(g, e, l, sig) {
                        0
                    } else {
                        old(self).parsers[g].clusters[e].cluster.result_index(toks)
                    };
                    &&& #[trigger] final(self).routes(g, e, l, sig)
                    &&& old(self).has_route(l, sig) ==> old(self).routes(g, e, l, sig)
                    &&& 0 <= k < c.templates.len()
                    &&& out.template == c.templates[k].id
                    &&& tokens_view(out.tokens@) == tokens_view(c.templates[k].tokens@)
                    &&& tokens_view(out.parameters@) == parameters_of(tokens_view(out.tokens@), toks, l as int)
                    &&& created ==> {
                        &&& out.template == old(self).next_id_view()
                        &&& final(self).next_id_view() == old(self).next_id_view() + 1
                        &&& c.templates[k].count == 1
                        &&& tokens_view(c.templates[k].tokens@) == toks
                    }
                    &&& !created ==> {
                        &&& out.template == old(self).parsers[g].clusters[e].cluster.templates[k].id
                        &&& final(self).next_id_view() == old(self).next_id_view()
                        &&& c.templates[k].count == old(self).parsers[g].clusters[e].cluster.templates[k].count + 1
                    }
                }
                &&& forall|g: int, e: int|
                    0 <= g < old(self).parsers.len() && 0 <= e < old(self).parsers[g].clusters.len()
                        && !old(self).routes(g, e, l, sig)
                        ==> #[trigger] old(self).same_cluster(final(self), g, e)
            }),
    {
        let tokens = tokenize(input, &[' ', '=', ',', ':']);
        let ghost toks = tokens_of(input@, line_delimiters());
        proof {
            assert(seq![' ', '=', ',', ':'] =~= line_delimiters());
            assert(tokens_view(tokens@) == toks);
        }
        let l = tokens.len();
        if l == 0 {
            return None;
        }
        let ghost sig = signature_of(toks[0]);
        let mut g: usize = 0;
        while g < self.parsers.len() && self.parsers[g].len != l
            invariant
                g <= self.parsers.len(),
                forall|k: int| 0 <= k < g ==> self.parsers[k].len != l,
            decreases self.parsers.len() - g,
        {
            g = g + 1;
        }
        if g == self.parsers.len() {
            self.parsers.push(LengthGroup { len: l, clusters: Vec::new() });
        }
        let ghost st1 = *self;
        assert(self.wf() && self.counts_bounded()) by {
            assert forall|g1: int, e1: int, t1: int| #[trigger] self.valid_pos(g1, e1, t1) implies old(self).valid_pos(g1, e1, t1) && self.tmpl(g1, e1, t1) == old(self).tmpl(g1, e1, t1) by {
                assert(g1 < old(self).parsers.len());
            }
        }
        let sig_s = signature(&tokens[0]);
        let mut e: usize = 0;
        while e < self.parsers[g].clusters.len() && self.parsers[g].clusters[e].signature != sig_s
            invariant
                *self == st1,
                g < self.parsers.len(),
                e <= self.parsers[g as int].clusters.len(),
                forall|k: int| 0 <= k < e ==> self.parsers[g as int].clusters[k].signature@ != sig_s@,
            decreases self.parsers[g as int].clusters.len() - e,
        {
            e = e + 1;
        }
        if e == self.parsers[g].clusters.len() {
            self.parsers[g].clusters.push(SignatureCluster { signature: sig_s, cluster: LogCluster::new(l) });
        }
        let ghost st2 = *self;
        assert(self.wf() && self.counts_bounded()) by {
            assert forall|g1: int, e1: int, t1: int| #[trigger] self.valid_pos(g1, e1, t1) implies st1.valid_pos(g1, e1, t1) && self.tmpl(g1, e1, t1) == st1.tmpl(g1, e1, t1) by {
                if g1 == g {
                    assert(e1 < st1.parsers[g1].clusters.len());
                }
            }
        }
        let new_id = self.new_id;
        proof {
            let c = self.parsers[g as int].clusters[e as int].cluster;
            assert forall|t: int| 0 <= t < c.templates.len() implies #[trigger] c.templates[t].count < usize::MAX by {
                assert(self.valid_pos(g as int, e as int, t));
            }
        }
        let out = self.parsers[g].clusters[e].cluster.process(tokens, new_id);
        let ghost st3 = *self;
        let ghost c0 = st2.parsers[g as int].clusters[e as int].cluster;
        let ghost n0 = c0.templates.len() as int;
        let ghost created = c0.creates_for(toks);
        proof {
            assert forall|g1: int, e1: int| 0 <= g1 < st3.parsers.len() && 0 <= e1 < st3.parsers[g1].clusters.len()
                && !(g1 == g && e1 == e) implies st3.parsers[g1].clusters[e1] == st2.parsers[g1].clusters[e1] by {
                if g1 == g {
                    assert(st3.parsers[g1].clusters[e1] == st2.parsers[g1].clusters[e1]);
                }
            }
            assert forall|g1: int, e1: int, t1: int| #[trigger] st3.valid_pos(g1, e1, t1) implies
                (created && g1 == g && e1 == e && t1 == n0 && st3.tmpl(g1, e1, t1).id == new_id)
                || (st2.valid_pos(g1, e1, t1) && st3.tmpl(g1, e1, t1).id == st2.tmpl(g1, e1, t1).id
                    && !(created && g1 == g && e1 == e && t1 == n0)) by {
                if g1 == g && e1 == e {
                    if created {
                        if t1 < n0 {
                            assert(st3.parsers[g1].clusters[e1].cluster.templates@.subrange(0, n0)[t1]
                                == c0.templates@[t1]);
                        }
                    } else {
                        if t1 != c0.result_index(toks) {
                            assert(st3.tmpl(g1, e1, t1) == c0.templates[t1]);
                        }
                    }
                }
            }
        }
        if out.template == new_id {
            self.new_id = new_id + 1;
        }
        proof {
            if c0.templates.len() > 0 {
                lemma_best_index_bounds(c0.templates@, toks, c0.templates.len() as int);
            }
            if !created {
                assert(st2.valid_pos(g as int, e as int, c0.result_index(toks)));
            }
            assert(created == (out.template == new_id));
            assert(self.parsers == st3.parsers);
            assert(self.parsers.len() == st2.parsers.len());
            assert forall|g1: int| 0 <= g1 < self.parsers.len() implies #[trigger] self.parsers[g1].len == st2.parsers[g1].len
                && self.parsers[g1].clusters.len() == st2.parsers[g1].clusters.len() by {}
            assert forall|g1: int, e1: int| 0 <= g1 < self.parsers.len() && 0 <= e1 < self.parsers[g1].clusters.len()
                implies #[trigger] self.parsers[g1].clusters[e1].signature@ == st2.parsers[g1].clusters[e1].signature@
                && self.parsers[g1].clusters[e1].cluster.len == self.parsers[g1].len
                && self.parsers[g1].clusters[e1].cluster.wf() by {
                if g1 == g && e1 == e {
                } else {
                    assert(self.parsers[g1].clusters[e1] == st2.parsers[g1].clusters[e1]);
                }
            }
            assert(self.next_id_view() >= 1);
            assert forall|g1: int, e1: int, t1: int| #[trigger] self.valid_pos(g1, e1, t1) implies
                1 <= self.tmpl(g1, e1, t1).id < self.next_id_view() by {
                assert(st3.valid_pos(g1, e1, t1));
            }
            assert forall|g1: int, e1: int, t1: int, g2: int, e2: int, t2: int|
                self.valid_pos(g1, e1, t1) && self.valid_pos(g2, e2, t2)
                    && #[trigger] self.tmpl(g1, e1, t1).id == #[trigger] self.tmpl(g2, e2, t2).id
                    implies g1 == g2 && e1 == e2 && t1 == t2 by {
                assert(st3.valid_pos(g1, e1, t1));
                assert(st3.valid_pos(g2, e2, t2));
            }
            assert(self.wf());
            assert(sig_s@ == sig);
            let gi = g as int;
            let ei = e as int;
            assert(self.routes(gi, ei, l as nat, sig));
            let was = old(self).routes(gi, ei, l as nat, sig);
            assert(was == (gi < old(self).parsers.len() && ei < old(self).parsers[gi].clusters.len()));
            if was {
                assert(c0 == old(self).parsers[gi].clusters[ei].cluster);
            } else {
                assert(c0.templates.len() == 0);
            }
            if old(self).has_route(l as nat, sig) {
                let (g2, e2) = choose|g2: int, e2: int| old(self).routes(g2, e2, l as nat, sig);
                assert(g2 == gi);
                assert(e2 == ei);
            }
            assert forall|g1: int, e1: int|
                0 <= g1 < old(self).parsers.len() && 0 <= e1 < old(self).parsers[g1].clusters.len()
                    && !old(self).routes(g1, e1, l as nat, sig)
                    implies #[trigger] old(self).same_cluster(self, g1, e1) by {
                assert(!(g1 == gi && e1 == ei));
                assert(st2.parsers[g1].clusters[e1] == old(self).parsers[g1].clusters[e1]);
            }
        }
        Some(out)
    }

    /// Number of templates over all clusters.
    pub fn count_logtemplates(&self) -> (r: usize)
        requires
            self.template_total() <= usize::MAX,
        ensures
            r == self.template_total(),
    {
        let mut count: usize = 0;
        let mut g: usize = 0;
        while g < self.parsers.len()
            invariant
                g <= self.parsers.len(),
                count == total(self.parsers@, g as int),
                self.template_total() <= usize::MAX,
            decreases self.parsers.len() - g,
        {
            let cs = &self.parsers[g].clusters;
            let mut e: usize = 0;
            let ghost base = count as int;
            proof {
                lemma_total_monotone(self.parsers@, g as int + 1, self.parsers.len() as int);
            }
            while e < cs.len()
                invariant
                    e <= cs.len(),
                    cs == self.parsers[g as int].clusters,
                    g < self.parsers.len(),
                    base == total(self.parsers@, g as int),
                    count == base + group_total(cs@, e as int),
                    total(self.parsers@, g + 1) <= self.template_total() <= usize::MAX,
                decreases cs.len() - e,
            {
                proof {
                    lemma_group_total_monotone(cs@, e as int + 1, cs.len() as int);
                }
                count = count + cs[e].cluster.templates.len();
                e = e + 1;
            }
            g = g + 1;
        }
        count
    }
}

proof fn lemma_group_total_monotone(cs: Seq<SignatureCluster>, a: int, b: int)
    requires
        a <= b,
    ensures
        group_total(cs, a) <= group_total(cs, b),
    decreases b - a,
{
    if a < b {
        lemma_group_total_monotone(cs, a, b - 1);
    }
}

proof fn lemma_total_monotone(gs: Seq<LengthGroup>, a: int, b: int)
    requires
        a <= b,
    ensures
        total(gs, a) <= total(gs, b),
    decreases b - a,
{
    if a < b {
        lemma_total_monotone(gs, a, b - 1);
    }
}

} // verus!
