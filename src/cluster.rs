use vstd::prelude::*;

verus! {

/// The text of a sequence of owned strings.
pub open spec fn tokens_view(v: Seq<String>) -> Seq<Seq<char>> {
    v.map_values(|s: String| s@)
}

/// The wildcard marker, standing where the templates of a cluster vary.
pub open spec fn wildcard() -> Seq<char> {
    seq!['*']
}

/// Number of positions below `n` at which `a` and `b` hold the same token.
pub open spec fn score(a: Seq<Seq<char>>, b: Seq<Seq<char>>, n: int) -> nat
    decreases n,
{
    if n <= 0 {
        0
    } else {
        score(a, b, n - 1) + if a[n - 1] == b[n - 1] { 1nat } else { 0nat }
    }
}

/// Similarity of a template to an input: its number of equal positions.
pub open spec fn template_score(t: Template, input: Seq<Seq<char>>) -> nat {
    score(input, tokens_view(t.tokens@), input.len() as int)
}

/// Index of the first template among the first `k` with the greatest score.
pub open spec fn best_index(ts: Seq<Template>, input: Seq<Seq<char>>, k: int) -> int
    decreases k,
{
    if k <= 1 {
        0
    } else {
        let b = best_index(ts, input, k - 1);
        if template_score(ts[k - 1], input) > template_score(ts[b], input) {
            k - 1
        } else {
            b
        }
    }
}

/// Whether a best score `s` in a cluster of length `n` is similar enough to
/// update a template: `s / n` is at least one half.
pub open spec fn similar_enough(s: nat, n: nat) -> bool {
    n > 0 && 2 * s >= n
}

/// The template tokens after an input matched: equal positions stay, the
/// others become the wildcard.
pub open spec fn merged(t: Seq<Seq<char>>, input: Seq<Seq<char>>) -> Seq<Seq<char>> {
    Seq::new(t.len(), |i: int| if t[i] == input[i] { t[i] } else { wildcard() })
}

/// The input tokens, in order, at the first `k` positions where the template
/// holds the wildcard.
pub open spec fn parameters_of(t: Seq<Seq<char>>, input: Seq<Seq<char>>, k: int) -> Seq<Seq<char>>
    decreases k,
{
    if k <= 0 {
        Seq::empty()
    } else if t[k - 1] == wildcard() {
        parameters_of(t, input, k - 1).push(input[k - 1])
    } else {
        parameters_of(t, input, k - 1)
    }
}

/// What parsing one line yields: the id of its template, the template's
/// current tokens and the values found at its wildcard positions.
#[derive(Debug)]
pub struct DrainParseOutput {
    pub template: usize,
    pub tokens: Vec<String>,
    pub parameters: Vec<String>,
}

/// A discovered pattern: literal tokens and wildcards, with the number of
/// lines that matched it.
#[derive(Debug, PartialEq)]
pub struct Template {
    pub id: usize,
    pub tokens: Vec<String>,
    pub count: usize,
}

/// The templates that share one line length and one first-token signature.
#[derive(Debug, PartialEq)]
pub struct LogCluster {
    pub len: usize,
    pub templates: Vec<Template>,
}

/// Number of positions at which two token sequences agree.
pub fn simseq(seq1: &Vec<String>, seq2: &Vec<String>) -> (r: usize)
    requires
        seq1.len() <= seq2.len(),
    ensures
        r == score(tokens_view(seq1@), tokens_view(seq2@), seq1.len() as int),
{
    let mut sum: usize = 0;
    let mut i: usize = 0;
    while i < seq1.len()
        invariant
            i <= seq1.len() <= seq2.len(),
            sum == score(tokens_view(seq1@), tokens_view(seq2@), i as int),
            sum <= i,
        decreases seq1.len() - i,
    {
        if seq1[i] == seq2[i] {
            sum = sum + 1;
        }
        i = i + 1;
    }
    sum
}

/// A copy of a token sequence.
pub fn copy_tokens(v: &Vec<String>) -> (r: Vec<String>)
    ensures
        r@ == v@,
{
    let mut r: Vec<String> = Vec::new();
    let mut i: usize = 0;
    while i < v.len()
        invariant
            i <= v.len(),
            r@ == v@.subrange(0, i as int),
        decreases v.len() - i,
    {
        r.push(v[i].clone());
        i = i + 1;
        assert(r@ =~= v@.subrange(0, i as int));
    }
    assert(v@.subrange(0, i as int) =~= v@);
    r
}

/// The wildcard marker as a string.
pub fn wildcard_token() -> (r: String)
    ensures
        r@ == wildcard(),
{
    proof {
        reveal_strlit("*");
    }
    "*".to_owned()
}

impl LogCluster {
    /// Every template has as many tokens as the cluster's lines.
    pub open spec fn wf(&self) -> bool {
        forall|t: int| 0 <= t < self.templates.len() ==> #[trigger] self.templates[t].tokens.len() == self.len
    }

    /// No template's count is at its largest value.
    pub open spec fn counts_bounded(&self) -> bool {
        forall|t: int| 0 <= t < self.templates.len() ==> #[trigger] self.templates[t].count < usize::MAX
    }

    /// Best score of the templates against `input`, and where it is.
    pub open spec fn best_of(&self, input: Seq<Seq<char>>) -> int {
        best_index(self.templates@, input, self.templates.len() as int)
    }

    /// Whether processing `input` makes a new template.
    pub open spec fn creates_for(&self, input: Seq<Seq<char>>) -> bool {
        self.templates.len() == 0 || !similar_enough(
            template_score(self.templates[self.best_of(input)], input),
            self.len as nat,
        )
    }

    /// Index of the template that processing `input` updates or appends.
    pub open spec fn result_index(&self, input: Seq<Seq<char>>) -> int {
        if self.creates_for(input) {
            self.templates.len() as int
        } else {
            self.best_of(input)
        }
    }

    pub fn new(len: usize) -> (r: Self)
        ensures
            r.len == len,
            r.templates@.len() == 0,
            r.wf(),
    {
        LogCluster { len, templates: Vec::new() }
    }

    /// Matches a line's tokens against this cluster: the most similar
    /// template takes the line if at least half its positions agree, losing
    /// the disagreeing ones to the wildcard; otherwise the line becomes a new
    /// template with id `new_id`.
    pub fn process(&mut self, tokens: Vec<String>, new_id: usize) -> (out: DrainParseOutput)
        requires
            old(self).wf(),
            old(self).counts_bounded(),
            tokens.len() == old(self).len,
        ensures
            final(self).wf(),
            final(self).len == old(self).len,
            ({
                let input = tokens_view(tokens@);
                let n = old(self).templates.len() as int;
                let k = old(self).result_index(input);
                &&& 0 <= k <= n
                &&& old(self).creates_for(input) ==> {
                    &&& final(self).templates@.len() == n + 1
                    &&& final(self).templates@.subrange(0, n) == old(self).templates@
                    &&& final(self).templates[n].id == new_id
                    &&& final(self).templates[n].count == 1
                    &&& tokens_view(final(self).templates[n].tokens@) == input
                }
                &&& !old(self).creates_for(input) ==> {
                    &&& final(self).templates@.len() == n
                    &&& forall|t: int|
                        0 <= t < n && t != k ==> #[trigger] final(self).templates[t] == old(self).templates[t]
                    &&& final(self).templates[k].id == old(self).templates[k].id
                    &&& final(self).templates[k].count == old(self).templates[k].count + 1
                    &&& tokens_view(final(self).templates[k].tokens@) == merged(
                        tokens_view(old(self).templates[k].tokens@),
                        input,
                    )
                }
                &&& out.template == final(self).templates[k].id
                &&& tokens_view(out.tokens@) == tokens_view(final(self).templates[k].tokens@)
                &&& tokens_view(out.parameters@) == parameters_of(
                    tokens_view(out.tokens@),
                    input,
                    input.len() as int,
                )
            }),
            forall|t: int, i: int|
                0 <= t < old(self).templates.len() && 0 <= i < old(self).len
                    && tokens_view(old(self).templates[t].tokens@)[i] == wildcard()
                    ==> #[trigger] tokens_view(final(self).templates[t].tokens@)[i] == wildcard(),
    {
        let ghost input = tokens_view(tokens@);
        let l = tokens.len();
        let n = self.templates.len();
        let mut best: usize = 0;
        let mut best_score: usize = 0;
        let mut i: usize = 0;
        while i < n
            invariant
                n == self.templates.len(),
                l == tokens.len() == self.len,
                self.wf(),
                input == tokens_view(tokens@),
                i <= n,
                i > 0 ==> best < i,
                i > 0 ==> best == best_index(self.templates@, input, i as int),
                i > 0 ==> best_score == template_score(self.templates[best as int], input),
                best_score <= l,
            decreases n - i,
        {
            let score = simseq(&tokens, &self.templates[i].tokens);
            proof {
                lemma_score_bounded(input, tokens_view(self.templates[i as int].tokens@), l as int);
            }
            if i == 0 || score > best_score {
                best = i;
                best_score = score;
            }
            i = i + 1;
        }
        let index: usize;
        if n == 0 || !(self.len > 0 && best_score >= self.len - best_score) {
            let t = Template { id: new_id, tokens: copy_tokens(&tokens), count: 1 };
            self.templates.push(t);
            index = n;
            proof {
                assert(self.templates@.subrange(0, n as int) =~= old(self).templates@);
            }
        } else {
            let old_tokens = &self.templates[best].tokens;
            let mut m: Vec<String> = Vec::new();
            let mut j: usize = 0;
            while j < l
                invariant
                    l == tokens.len() == old_tokens.len(),
                    input == tokens_view(tokens@),
                    j <= l,
                    m@.len() == j,
                    tokens_view(m@) == merged(tokens_view(old_tokens@), input).subrange(0, j as int),
                decreases l - j,
            {
                let ghost prev = m@;
                if old_tokens[j] == tokens[j] {
                    m.push(old_tokens[j].clone());
                } else {
                    m.push(wildcard_token());
                }
                proof {
                    let mg = merged(tokens_view(old_tokens@), input);
                    assert(m@ == prev.push(m@[j as int]));
                    assert(tokens_view(m@)[j as int] == mg[j as int]);
                    assert(tokens_view(m@) =~= mg.subrange(0, j + 1));
                }
                j = j + 1;
            }
            assert(tokens_view(m@) =~= merged(tokens_view(old_tokens@), input));
            let t = Template { id: self.templates[best].id, tokens: m, count: self.templates[best].count + 1 };
            self.templates[best] = t;
            index = best;
        }
        let star = wildcard_token();
        let template = &self.templates[index];
        let mut parameters: Vec<String> = Vec::new();
        let mut j: usize = 0;
        while j < l
            invariant
                l == tokens.len() == template.tokens.len(),
                input == tokens_view(tokens@),
                star@ == wildcard(),
                j <= l,
                parameters@.len() <= j,
                tokens_view(parameters@) == parameters_of(tokens_view(template.tokens@), input, j as int),
            decreases l - j,
        {
            let ghost prev = parameters@;
            if template.tokens[j] == star {
                parameters.push(tokens[j].clone());
                proof {
                    assert(parameters@ == prev.push(tokens@[j as int]));
                    assert(tokens_view(parameters@) =~= tokens_view(prev).push(input[j as int]));
                }
            }
            j = j + 1;
        }
        DrainParseOutput { template: template.id, tokens: copy_tokens(&template.tokens), parameters }
    }
}

/// The best template of a nonempty prefix lies in that prefix.
pub proof fn lemma_best_index_bounds(ts: Seq<Template>, input: Seq<Seq<char>>, k: int)
    requires
        k >= 1,
    ensures
        0 <= best_index(ts, input, k) < k,
    decreases k,
{
    if k > 1 {
        lemma_best_index_bounds(ts, input, k - 1);
    }
}

/// A score never exceeds the number of positions compared.
pub proof fn lemma_score_bounded(a: Seq<Seq<char>>, b: Seq<Seq<char>>, n: int)
    requires
        n >= 0,
    ensures
        score(a, b, n) <= n,
    decreases n,
{
    if n > 0 {
        lemma_score_bounded(a, b, n - 1);
    }
}

} // verus!
