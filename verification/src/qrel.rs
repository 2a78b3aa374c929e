//! The relevance-judgment store: an immutable two-level map, query id to
//! document id to gain key, built once from the lines of a TREC-qrel-style
//! file and then only read.
//!
//! Reading the file and turning each relevance token into a gain key happen
//! at the boundary; this module verifies everything the store decides: line
//! tokenization, 1-based error positions that abort the whole load, the
//! last-line-wins rule for duplicate (query, document) pairs, and the counts
//! and lookups the metrics rely on.

use vstd::prelude::*;

use crate::GAIN_ZERO_KEY;
use crate::assoc::{contains_key, lemma_find, find, spec_find, spec_get, unique_keys};
use crate::errors::RankError;
use crate::relevant_count;

verus! {

/// Looking a key up is insensitive to the values beside the keys.
proof fn lemma_find_same_keys<U, V>(m1: Seq<(String, U)>, m2: Seq<(String, V)>, k: Seq<char>)
    requires
        m1.len() == m2.len(),
        forall|j: int| 0 <= j < m1.len() ==> (#[trigger] m1[j].0@) == m2[j].0@,
    ensures
        spec_find(m1, k) == spec_find(m2, k),
    decreases m1.len(),
{
    if m1.len() > 0 {
        assert(m1[0].0@ == m2[0].0@);
        if m1[0].0@ != k {
            let t1 = m1.drop_first();
            let t2 = m2.drop_first();
            assert forall|j: int| 0 <= j < t1.len() implies (#[trigger] t1[j].0@) == t2[j].0@ by {
                assert(t1[j] == m1[j + 1]);
                assert(t2[j] == m2[j + 1]);
            }
            lemma_find_same_keys(t1, t2, k);
        }
    }
}

/// Looking a key up in a list extended at the end: the old first match wins;
/// only a key never seen before reaches the new entry.
pub(crate) proof fn lemma_find_push<V>(m: Seq<(String, V)>, e: (String, V), k: Seq<char>)
    ensures
        spec_find(m.push(e), k) == match spec_find(m, k) {
            Some(j) => Some(j),
            None => {
                if e.0@ == k {
                    Some(m.len() as int)
                } else {
                    None::<int>
                }
            },
        },
    decreases m.len(),
{
    if m.len() == 0 {
        assert(m.push(e)[0] == e);
        assert(m.push(e).len() == 1);
        if e.0@ != k {
            assert(spec_find(m.push(e), k) == match spec_find(m.push(e).drop_first(), k) {
                Some(j) => Some(j + 1),
                None => None::<int>,
            });
            assert(m.push(e).drop_first() =~= Seq::<(String, V)>::empty());
        }
    } else {
        assert(m.push(e)[0] == m[0]);
        if m[0].0@ != k {
            assert(m.push(e).drop_first() =~= m.drop_first().push(e));
            lemma_find_push(m.drop_first(), e, k);
        }
    }
}

/// The ground-truth gains one query's judged documents were given: document
/// id to non-negative gain key, immutable once built.
#[derive(Clone, Debug)]
pub struct QueryJudgments {
    docid_to_rel: Vec<(String, u32)>,
}

impl QueryJudgments {
    /// The stored (document id, gain key) entries, in first-judged order.
    pub closed spec fn entries(&self) -> Seq<(String, u32)> {
        self.docid_to_rel@
    }

    /// Document ids unique, and few enough to count in 32 bits.
    pub closed spec fn wf(&self) -> bool {
        &&& unique_keys(self.entries())
        &&& self.entries().len() <= u32::MAX
    }

    /// The judged gains as a map: document id to gain key.
    pub closed spec fn gain_map(&self) -> Map<Seq<char>, u32> {
        Map::new(
            |d: Seq<char>| contains_key(self.entries(), d),
            |d: Seq<char>|
                match spec_get(self.entries(), d) {
                    Some(g) => g,
                    None => GAIN_ZERO_KEY,
                },
        )
    }

    /// The stored gain keys, in entry order.
    pub closed spec fn gain_seq(&self) -> Seq<u32> {
        self.entries().map_values(|p: (String, u32)| p.1)
    }

    /// How many documents are judged for this query.
    pub fn num_judged(&self) -> (r: u32)
        requires
            self.wf(),
        ensures
            r == self.entries().len(),
    {
        self.docid_to_rel.len() as u32
    }

    /// How many judged documents are relevant (gain above zero); never more
    /// than the judged count.
    pub fn num_relevant(&self) -> (r: u32)
        requires
            self.wf(),
        ensures
            r == relevant_count(self.gain_seq()),
            r <= self.entries().len(),
    {
        let mut count: u32 = 0;
        let mut i: usize = 0;
        proof {
            assert(self.gain_seq().take(0) =~= Seq::<u32>::empty());
        }
        while i < self.docid_to_rel.len()
            invariant
                self.wf(),
                0 <= i <= self.entries().len(),
                count == relevant_count(self.gain_seq().take(i as int)),
                count <= i,
            decreases self.entries().len() - i,
        {
            proof {
                assert(self.gain_seq().take(i as int + 1).drop_last() =~= self.gain_seq().take(
                    i as int,
                ));
                assert(self.gain_seq().take(i as int + 1).last() == self.entries()[i as int].1);
            }
            if self.docid_to_rel[i].1 > GAIN_ZERO_KEY {
                count = count + 1;
            }
            i = i + 1;
        }
        proof {
            assert(self.gain_seq().take(self.entries().len() as int) =~= self.gain_seq());
        }
        count
    }

    /// The gain of a document: its judged gain key, or the zero-gain key for
    /// an unjudged document.
    pub fn get_gain(&self, docid: &str) -> (r: u32)
        requires
            self.wf(),
        ensures
            r == if self.gain_map().dom().contains(docid@) {
                self.gain_map()[docid@]
            } else {
                GAIN_ZERO_KEY
            },
    {
        let sought = docid.to_owned();
        proof {
            lemma_find(self.entries(), docid@);
        }
        match find(&self.docid_to_rel, &sought) {
            Some(j) => self.docid_to_rel[j].1,
            None => GAIN_ZERO_KEY,
        }
    }

    /// All judged gain keys, in first-judged order (callers sort them when
    /// an order matters).
    pub fn gain_vector(&self) -> (r: Vec<u32>)
        ensures
            r@ == self.gain_seq(),
    {
        let mut out: Vec<u32> = Vec::new();
        let mut i: usize = 0;
        while i < self.docid_to_rel.len()
            invariant
                0 <= i <= self.entries().len(),
                out@.len() == i,
                forall|l: int| 0 <= l < i ==> out@[l] == self.entries()[l].1,
            decreases self.entries().len() - i,
        {
            out.push(self.docid_to_rel[i].1);
            i = i + 1;
        }
        proof {
            assert(out@ =~= self.gain_seq());
        }
        out
    }
}

/// Judgments for a whole query set: query id to its `QueryJudgments`,
/// immutable once built and shared by reference by every evaluator.
#[derive(Clone, Debug)]
pub struct QuerySetJudgments {
    query_to_judgments: Vec<(String, QueryJudgments)>,
}

impl QuerySetJudgments {
    /// The stored (query id, judgments) entries, in first-judged order.
    pub closed spec fn entries(&self) -> Seq<(String, QueryJudgments)> {
        self.query_to_judgments@
    }

    pub closed spec fn wf(&self) -> bool {
        &&& unique_keys(self.entries())
        &&& forall|j: int| 0 <= j < self.entries().len() ==> (#[trigger] self.entries()[j].1).wf()
    }

    /// The whole store as a two-level map: query id to document id to gain.
    pub closed spec fn judgment_map(&self) -> Map<Seq<char>, Map<Seq<char>, u32>> {
        set_view(self.entries())
    }

    /// The judgments of one query, if any line judged it.
    pub fn get(&self, qid: &str) -> (r: Option<&QueryJudgments>)
        requires
            self.wf(),
        ensures
            match r {
                Some(qj) => spec_get(self.entries(), qid@) == Some(*qj) && qj.wf()
                    && self.judgment_map().dom().contains(qid@) && qj.gain_map()
                    == self.judgment_map()[qid@],
                None => !self.judgment_map().dom().contains(qid@) && spec_get(self.entries(), qid@)
                    is None,
            },
    {
        let sought = qid.to_owned();
        proof {
            lemma_find(self.entries(), qid@);
        }
        match find(&self.query_to_judgments, &sought) {
            Some(j) => Some(&self.query_to_judgments[j].1),
            None => None,
        }
    }
}

/// The two-level map a sequence of store entries denotes.
pub open spec fn set_view(m: Seq<(String, QueryJudgments)>) -> Map<Seq<char>, Map<Seq<char>, u32>> {
    Map::new(
        |q: Seq<char>| contains_key(m, q),
        |q: Seq<char>|
            match spec_get(m, q) {
                Some(qj) => qj.gain_map(),
                None => Map::empty(),
            },
    )
}

/// Records or overwrites one judged gain: the last line wins for a repeated
/// document id.
fn set_gain(qj: &mut QueryJudgments, docid: &String, g: u32)
    requires
        old(qj).wf(),
        old(qj).entries().len() < u32::MAX,
    ensures
        final(qj).wf(),
        final(qj).gain_map() == old(qj).gain_map().insert(docid@, g),
        final(qj).entries().len() <= old(qj).entries().len() + 1,
{
    proof {
        lemma_find(old(qj).entries(), docid@);
    }
    let ghost olde = qj.docid_to_rel@;
    match find(&qj.docid_to_rel, docid) {
        Some(k) => {
            let e = qj.docid_to_rel.remove(k);
            qj.docid_to_rel.insert(k, (e.0, g));
            proof {
                assert(qj.docid_to_rel@ =~= olde.update(k as int, (olde[k as int].0, g)));
                let newe = qj.docid_to_rel@;
                assert forall|j: int| 0 <= j < olde.len() implies (#[trigger] olde[j].0@)
                    == newe[j].0@ by {}
                assert forall|d: Seq<char>|
                    #![trigger contains_key(newe, d)]
                    #![trigger contains_key(olde, d)]
                    contains_key(newe, d) == contains_key(olde, d) by {
                    if contains_key(newe, d) {
                        let w = choose|w: int| 0 <= w < newe.len() && (#[trigger] newe[w].0@) == d;
                        assert(olde[w].0@ == d);
                    }
                    if contains_key(olde, d) {
                        let w = choose|w: int| 0 <= w < olde.len() && (#[trigger] olde[w].0@) == d;
                        assert(newe[w].0@ == d);
                    }
                }
                assert forall|d: Seq<char>| true implies #[trigger] spec_find(newe, d) == spec_find(
                    olde,
                    d,
                ) by {
                    lemma_find_same_keys(newe, olde, d);
                }
                let gm_new = qj.gain_map();
                let gm_old = old(qj).gain_map();
                assert(gm_new =~= gm_old.insert(docid@, g)) by {
                    assert forall|d: Seq<char>| contains_key(newe, d) implies #[trigger] gm_new[d]
                        == gm_old.insert(docid@, g)[d] by {
                        lemma_find(newe, d);
                        lemma_find(olde, d);
                        let jd = spec_find(newe, d).unwrap();
                        if d == docid@ {
                            assert(jd == k);
                        } else {
                            assert(newe[jd].0@ == d);
                            assert(jd != k);
                        }
                    }
                }
            }
        },
        None => {
            qj.docid_to_rel.push((docid.clone(), g));
            proof {
                let newe = qj.docid_to_rel@;
                assert(newe.len() == olde.len() + 1);
                assert(newe.drop_last() =~= olde);
                assert(newe.last().0@ == docid@);
                assert(newe.last().1 == g);
                assert forall|a: int, b: int| 0 <= a < b < newe.len() implies (
                #[trigger] newe[a].0@) != (#[trigger] newe[b].0@) by {
                    if b < newe.len() - 1 {
                        assert(olde[a].0@ != olde[b].0@);
                    } else {
                        assert(newe[b].0@ == docid@);
                        assert(!contains_key(olde, docid@));
                        assert(newe[a].0@ == olde[a].0@);
                    }
                }
                let gm_new = qj.gain_map();
                let gm_old = old(qj).gain_map();
                assert(gm_new =~= gm_old.insert(docid@, g)) by {
                    assert forall|d: Seq<char>|
                        #![trigger contains_key(newe, d)]
                        #![trigger contains_key(olde, d)]
                        true implies {
                        &&& contains_key(newe, d) == (contains_key(olde, d) || d == docid@)
                        &&& (contains_key(newe, d) ==> (match spec_get(newe, d) {
                            Some(x) => x,
                            None => GAIN_ZERO_KEY,
                        }) == (if d == docid@ {
                            g
                        } else {
                            match spec_get(olde, d) {
                                Some(x) => x,
                                None => GAIN_ZERO_KEY,
                            }
                        }))
                    } by {
                        assert(newe =~= olde.push(newe.last()));
                        lemma_find_push(olde, newe.last(), d);
                        lemma_find(olde, d);
                        lemma_find(newe, d);
                        if contains_key(newe, d) {
                            let jd = spec_find(newe, d).unwrap();
                            if jd < olde.len() {
                                assert(olde[jd].0@ == d);
                            }
                        }
                        if contains_key(olde, d) {
                            let w = choose|w: int|
                                0 <= w < olde.len() && (#[trigger] olde[w].0@) == d;
                            assert(newe[w].0@ == d);
                        }
                        if d == docid@ {
                            assert(newe[newe.len() - 1].0@ == d);
                            if contains_key(olde, d) {
                                assert(false);
                            }
                            assert(spec_find(olde, d) is None);
                            assert(spec_find(newe, d) == Some(olde.len() as int));
                        }
                    }
                }
            }
        },
    }
}

/// One judgment line's relevance value, as the boundary parsed it: a gain
/// key, or one of the two ways a token fails.
#[derive(Clone, Copy, PartialEq, Eq, Structural, Debug)]
pub enum ParsedGain {
    Value(u32),
    Unparsable,
    NotANumber,
}

/// The first row whose relevance value failed to parse.
pub open spec fn first_bad(rows: Seq<(String, String, ParsedGain)>) -> Option<int>
    decreases rows.len(),
{
    if rows.len() == 0 {
        None
    } else if !(rows[0].2 is Value) {
        Some(0)
    } else {
        match first_bad(rows.drop_first()) {
            Some(j) => Some(j + 1),
            None => None,
        }
    }
}

/// What `first_bad` promises: the position of the first failed row, and
/// failure exactly when some row failed.
pub proof fn lemma_first_bad(rows: Seq<(String, String, ParsedGain)>)
    ensures
        match first_bad(rows) {
            Some(b) => 0 <= b < rows.len() && !(rows[b].2 is Value) && forall|l: int|
                0 <= l < b ==> (#[trigger] rows[l].2) is Value,
            None => forall|l: int| 0 <= l < rows.len() ==> (#[trigger] rows[l].2) is Value,
        },
    decreases rows.len(),
{
    if rows.len() > 0 && rows[0].2 is Value {
        let t = rows.drop_first();
        lemma_first_bad(t);
        match first_bad(t) {
            Some(j) => {
                assert(rows[j + 1] == t[j]);
                assert forall|l: int| 0 <= l < j + 1 implies (#[trigger] rows[l].2) is Value by {
                    if l > 0 {
                        assert(t[l - 1] == rows[l]);
                    }
                }
            },
            None => {
                assert forall|l: int| 0 <= l < rows.len() implies (#[trigger] rows[l].2)
                    is Value by {
                    if l > 0 {
                        assert(t[l - 1] == rows[l]);
                    }
                }
            },
        }
    }
}

/// The two-level map a row sequence denotes: each parsed row writes its gain
/// under (query id, document id), a later row overwriting an earlier one.
pub open spec fn judgment_map_of(rows: Seq<(String, String, ParsedGain)>) -> Map<
    Seq<char>,
    Map<Seq<char>, u32>,
>
    decreases rows.len(),
{
    if rows.len() == 0 {
        Map::empty()
    } else {
        let m = judgment_map_of(rows.drop_last());
        match rows.last().2 {
            ParsedGain::Value(g) => {
                let q = rows.last().0@;
                let d = rows.last().1@;
                let inner = if m.dom().contains(q) {
                    m[q]
                } else {
                    Map::empty()
                };
                m.insert(q, inner.insert(d, g))
            },
            _ => m,
        }
    }
}

/// Builds the judgment store from tokenized rows, each row the (query id,
/// document id, parsed relevance) of one line, in file order. Any failed
/// relevance value aborts the whole load with the 1-based line number and
/// the source path; otherwise the store holds the last-written gain of
/// every judged (query, document) pair.
pub fn build_judgments(path: &str, rows: &Vec<(String, String, ParsedGain)>) -> (r: Result<
    QuerySetJudgments,
    RankError,
>)
    ensures
        r is Ok <==> first_bad(rows@) is None && rows@.len() <= u32::MAX,
        r matches Ok(s) ==> s.wf() && s.judgment_map() == judgment_map_of(rows@),
        rows@.len() > u32::MAX ==> (r matches Err(RankError::InvalidValue { path: p, line, detail })
            && p@ == path@ && line == 0 && detail@ == "too many judgment lines"@),
        rows@.len() <= u32::MAX ==> (first_bad(rows@) matches Some(b) ==> (r matches Err(
            RankError::InvalidValue { path: p, line, detail },
        ) && p@ == path@ && line == b + 1 && (rows@[b].2 is Unparsable ==> detail@
            == "Invalid relevance judgment"@) && (rows@[b].2 is NotANumber ==> detail@
            == "NaN relevance judgment."@))),
{
    if rows.len() > (u32::MAX as usize) {
        return Err(
            RankError::InvalidValue {
                path: path.to_owned(),
                line: 0,
                detail: "too many judgment lines",
            },
        );
    }
    proof {
        lemma_first_bad(rows@);
    }
    let mut out: Vec<(String, QueryJudgments)> = Vec::new();
    proof {
        assert(set_view(out@) =~~= judgment_map_of(rows@.take(0)));
    }
    let mut i: usize = 0;
    while i < rows.len()
        invariant
            0 <= i <= rows@.len() <= u32::MAX,
            match first_bad(rows@) {
                Some(b) => 0 <= b < rows@.len() && !(rows@[b].2 is Value) && forall|l: int|
                    0 <= l < b ==> (#[trigger] rows@[l].2) is Value,
                None => forall|l: int| 0 <= l < rows@.len() ==> (#[trigger] rows@[l].2) is Value,
            },
            forall|l: int| 0 <= l < i ==> (#[trigger] rows@[l].2) is Value,
            unique_keys(out@),
            forall|j: int| 0 <= j < out@.len() ==> (#[trigger] out@[j].1).wf(),
            forall|j: int| 0 <= j < out@.len() ==> (#[trigger] out@[j].1).entries().len() <= i,
            set_view(out@) == judgment_map_of(rows@.take(i as int)),
        decreases rows@.len() - i,
    {
        proof {
            assert(rows@.take(i as int + 1).drop_last() =~= rows@.take(i as int));
            assert(rows@.take(i as int + 1).last() == rows@[i as int]);
        }
        let parsed = rows[i].2;
        match parsed {
            ParsedGain::Value(g) => {
                let ghost m = set_view(out@);
                proof {
                    lemma_find(out@, rows@[i as int].0@);
                }
                match find(&out, &rows[i].0) {
                    Some(j) => {
                        let ghost old_out = out@;
                        let mut entry = out.remove(j);
                        set_gain(&mut entry.1, &rows[i].1, g);
                        let ghost esnap = entry;
                        out.insert(j, entry);
                        proof {
                            lemma_judgment_step_update(
                                old_out,
                                out@,
                                j as int,
                                esnap,
                                rows@[i as int].0@,
                                rows@[i as int].1@,
                                g,
                            );
                            assert(set_view(out@) =~~= judgment_map_of(rows@.take(i as int + 1)));
                        }
                    },
                    None => {
                        let ghost old_out = out@;
                        let mut dv: Vec<(String, u32)> = Vec::new();
                        dv.push((rows[i].1.clone(), g));
                        let qj = QueryJudgments { docid_to_rel: dv };
                        proof {
                            let qje = qj.entries();
                            assert(qje.len() == 1);
                            assert(qje[0].0@ == rows@[i as int].1@ && qje[0].1 == g);
                            assert(qj.gain_map() =~= Map::<Seq<char>, u32>::empty().insert(
                                rows@[i as int].1@,
                                g,
                            )) by {
                                assert forall|d2: Seq<char>| #[trigger]
                                    contains_key(qje, d2) implies d2 == rows@[i as int].1@ by {
                                    let w = choose|w: int|
                                        0 <= w < qje.len() && (#[trigger] qje[w].0@) == d2;
                                    assert(w == 0);
                                }
                                assert(contains_key(qje, rows@[i as int].1@)) by {
                                    assert(qje[0].0@ == rows@[i as int].1@);
                                }
                                assert(spec_find(qje, rows@[i as int].1@) == Some(0int));
                            }
                            assert(qj.wf());
                        }
                        out.push((rows[i].0.clone(), qj));
                        proof {
                            assert(out@.drop_last() =~= old_out);
                            assert(out@.last().0@ == rows@[i as int].0@);
                            lemma_judgment_step_push(
                                old_out,
                                out@,
                                rows@[i as int].0@,
                                rows@[i as int].1@,
                                g,
                            );
                            assert(set_view(out@) =~~= judgment_map_of(rows@.take(i as int + 1)));
                        }
                    },
                }
            },
            ParsedGain::Unparsable => {
                proof {
                    match first_bad(rows@) {
                        Some(b) => {
                            if b < i {
                                assert(rows@[b].2 is Value);
                            }
                            if b > i {
                                assert(rows@[i as int].2 is Value);
                            }
                        },
                        None => {
                            assert(rows@[i as int].2 is Value);
                        },
                    }
                }
                return Err(
                    RankError::InvalidValue {
                        path: path.to_owned(),
                        line: i + 1,
                        detail: "Invalid relevance judgment",
                    },
                );
            },
            ParsedGain::NotANumber => {
                proof {
                    match first_bad(rows@) {
                        Some(b) => {
                            if b < i {
                                assert(rows@[b].2 is Value);
                            }
                            if b > i {
                                assert(rows@[i as int].2 is Value);
                            }
                        },
                        None => {
                            assert(rows@[i as int].2 is Value);
                        },
                    }
                }
                return Err(
                    RankError::InvalidValue {
                        path: path.to_owned(),
                        line: i + 1,
                        detail: "NaN relevance judgment.",
                    },
                );
            },
        }
        i = i + 1;
    }
    proof {
        assert(rows@.take(rows@.len() as int) =~= rows@);
        match first_bad(rows@) {
            Some(b) => {
                assert(rows@[b].2 is Value);
            },
            None => {},
        }
    }
    Ok(QuerySetJudgments { query_to_judgments: out })
}

/// Whether a character separates the columns of a judgment line: the
/// Unicode white-space characters.
pub open spec fn is_ws(c: char) -> bool {
    ||| c == '\u{0009}'
    ||| c == '\u{000A}'
    ||| c == '\u{000B}'
    ||| c == '\u{000C}'
    ||| c == '\u{000D}'
    ||| c == '\u{0020}'
    ||| c == '\u{0085}'
    ||| c == '\u{00A0}'
    ||| c == '\u{1680}'
    ||| ('\u{2000}' <= c && c <= '\u{200A}')
    ||| c == '\u{2028}'
    ||| c == '\u{2029}'
    ||| c == '\u{202F}'
    ||| c == '\u{205F}'
    ||| c == '\u{3000}'
}

/// The position of the first separator (or the end) at or after `i`.
pub open spec fn token_end(s: Seq<char>, i: int) -> int
    decreases s.len() - i,
{
    if i >= s.len() || i < 0 || is_ws(s[i]) {
        i
    } else {
        token_end(s, i + 1)
    }
}

/// What `token_end` promises.
pub proof fn lemma_token_end(s: Seq<char>, i: int)
    requires
        0 <= i <= s.len(),
    ensures
        i <= token_end(s, i) <= s.len(),
        forall|l: int| i <= l < token_end(s, i) ==> !is_ws(#[trigger] s[l]),
        token_end(s, i) == s.len() || is_ws(s[token_end(s, i)]),
    decreases s.len() - i,
{
    if i < s.len() && !is_ws(s[i]) {
        lemma_token_end(s, i + 1);
    }
}

/// Any position after a separator-free run that ends the run is the run's
/// end.
pub proof fn lemma_token_end_is(s: Seq<char>, i: int, j: int)
    requires
        0 <= i <= j <= s.len(),
        forall|l: int| i <= l < j ==> !is_ws(#[trigger] s[l]),
        j == s.len() || is_ws(s[j]),
    ensures
        token_end(s, i) == j,
    decreases j - i,
{
    if i < j {
        lemma_token_end_is(s, i + 1, j);
    }
}

/// The whitespace-separated columns of a line, in order.
pub open spec fn ws_tokens_from(s: Seq<char>, i: int) -> Seq<Seq<char>>
    decreases s.len() - i,
    when 0 <= i
    via ws_tokens_from_decreases
{
    if i >= s.len() {
        Seq::empty()
    } else if is_ws(s[i]) {
        ws_tokens_from(s, i + 1)
    } else {
        seq![s.subrange(i, token_end(s, i))] + ws_tokens_from(s, token_end(s, i))
    }
}

#[via_fn]
proof fn ws_tokens_from_decreases(s: Seq<char>, i: int) {
    if 0 <= i < s.len() && !is_ws(s[i]) {
        lemma_token_end(s, i);
    }
}

/// The whitespace-separated columns of a whole line.
pub open spec fn ws_tokens(s: Seq<char>) -> Seq<Seq<char>> {
    ws_tokens_from(s, 0)
}

/// Whether a character separates columns.
fn is_ws_char(c: char) -> (r: bool)
    ensures
        r == is_ws(c),
{
    if c <= '\u{0020}' {
        c == '\u{0009}' || c == '\u{000A}' || c == '\u{000B}' || c == '\u{000C}' || c
            == '\u{000D}' || c == '\u{0020}'
    } else {
        c == '\u{0085}' || c == '\u{00A0}' || c == '\u{1680}' || ('\u{2000}' <= c && c
            <= '\u{200A}') || c == '\u{2028}' || c == '\u{2029}' || c == '\u{202F}' || c
            == '\u{205F}' || c == '\u{3000}'
    }
}

/// Splits a line into its whitespace-separated columns. Column separators
/// are the Unicode white-space characters.
pub fn split_columns(line: &str) -> (r: Vec<String>)
    ensures
        r@.map_values(|t: String| t@) == ws_tokens(line@),
{
    let n = line.unicode_len();
    let mut out: Vec<String> = Vec::new();
    let mut i: usize = 0;
    proof {
        assert(out@.map_values(|t: String| t@) =~= Seq::<Seq<char>>::empty());
    }
    while i < n
        invariant
            0 <= i <= n == line@.len(),
            ws_tokens(line@) == out@.map_values(|t: String| t@) + ws_tokens_from(
                line@,
                i as int,
            ),
        decreases n - i,
    {
        let c = line.get_char(i);
        if is_ws_char(c) {
            i = i + 1;
        } else {
            let start = i;
            let mut j = i + 1;
            let mut done = false;
            while !done
                invariant
                    0 <= start < j <= n == line@.len(),
                    forall|l: int| start <= l < j ==> !is_ws(#[trigger] line@[l]),
                    done ==> j == n || is_ws(line@[j as int]),
                decreases n - j + (if done {
                    0int
                } else {
                    1int
                }),
            {
                if j == n {
                    done = true;
                } else {
                    let cj = line.get_char(j);
                    if is_ws_char(cj) {
                        done = true;
                    } else {
                        j = j + 1;
                    }
                }
            }
            proof {
                lemma_token_end_is(line@, start as int, j as int);
            }
            let token = line.substring_char(start, j).to_owned();
            let ghost old_view = out@.map_values(|t: String| t@);
            out.push(token);
            proof {
                assert(out@.map_values(|t: String| t@) =~= old_view.push(
                    line@.subrange(start as int, j as int),
                ));
                assert(seq![line@.subrange(start as int, j as int)] + ws_tokens_from(
                    line@,
                    j as int,
                ) =~= out@.map_values(|t: String| t@).skip(old_view.len() as int) + ws_tokens_from(
                    line@,
                    j as int,
                ));
                assert(ws_tokens(line@) =~= out@.map_values(|t: String| t@) + ws_tokens_from(
                    line@,
                    j as int,
                ));
            }
            i = j;
        }
    }
    proof {
        assert(ws_tokens(line@) =~= out@.map_values(|t: String| t@));
    }
    out
}

/// Tokenizes judgment lines: each line must hold at least four columns —
/// query id, an unused field, document id, relevance token — and yields the
/// first, third and fourth; a line with fewer columns fails the whole load
/// with its 1-based number and the source path.
pub fn tokenize_qrel(path: &str, lines: &Vec<String>) -> (r: Result<
    Vec<(String, String, String)>,
    RankError,
>)
    ensures
        r is Ok <==> (forall|l: int|
            0 <= l < lines@.len() ==> ws_tokens((#[trigger] lines@[l])@).len() >= 4),
        r matches Ok(v) ==> {
            &&& v@.len() == lines@.len()
            &&& forall|l: int|
                0 <= l < lines@.len() ==> {
                    &&& (#[trigger] v@[l]).0@ == ws_tokens(lines@[l]@)[0]
                    &&& v@[l].1@ == ws_tokens(lines@[l]@)[2]
                    &&& v@[l].2@ == ws_tokens(lines@[l]@)[3]
                }
        },
        r matches Err(e) ==> (e matches RankError::InvalidValue { path: p, line, detail } && p@
            == path@ && detail@ == "Invalid judgment line"@ && 1 <= line <= lines@.len()
            && ws_tokens(lines@[line - 1]@).len() < 4),
{
    let mut out: Vec<(String, String, String)> = Vec::new();
    let mut i: usize = 0;
    while i < lines.len()
        invariant
            0 <= i <= lines@.len(),
            out@.len() == i,
            forall|l: int| 0 <= l < i ==> ws_tokens((#[trigger] lines@[l])@).len() >= 4,
            forall|l: int|
                0 <= l < i ==> {
                    &&& (#[trigger] out@[l]).0@ == ws_tokens(lines@[l]@)[0]
                    &&& out@[l].1@ == ws_tokens(lines@[l]@)[2]
                    &&& out@[l].2@ == ws_tokens(lines@[l]@)[3]
                },
        decreases lines@.len() - i,
    {
        let cols = split_columns(lines[i].as_str());
        if cols.len() < 4 {
            proof {
                assert(ws_tokens(lines@[i as int]@).len() < 4);
            }
            return Err(
                RankError::InvalidValue {
                    path: path.to_owned(),
                    line: i + 1,
                    detail: "Invalid judgment line",
                },
            );
        }
        proof {
            assert(cols@.map_values(|t: String| t@)[0] == cols@[0]@);
            assert(cols@.map_values(|t: String| t@)[2] == cols@[2]@);
            assert(cols@.map_values(|t: String| t@)[3] == cols@[3]@);
        }
        out.push((cols[0].clone(), cols[2].clone(), cols[3].clone()));
        i = i + 1;
    }
    Ok(out)
}

/// One build step that overwrote inside an existing query's entry, seen at
/// the map level.
proof fn lemma_judgment_step_update(
    old_out: Seq<(String, QueryJudgments)>,
    new_out: Seq<(String, QueryJudgments)>,
    j: int,
    esnap: (String, QueryJudgments),
    q: Seq<char>,
    d: Seq<char>,
    g: u32,
)
    requires
        0 <= j < old_out.len(),
        spec_find(old_out, q) == Some(j),
        old_out[j].0@ == q,
        esnap.0 == old_out[j].0,
        esnap.1.gain_map() == old_out[j].1.gain_map().insert(d, g),
        new_out == old_out.remove(j).insert(j, esnap),
    ensures
        set_view(new_out) == set_view(old_out).insert(
            q,
            (if set_view(old_out).dom().contains(q) {
                set_view(old_out)[q]
            } else {
                Map::<Seq<char>, u32>::empty()
            }).insert(d, g),
        ),
{
    assert(new_out =~= old_out.update(j, esnap));
    assert forall|l: int| 0 <= l < old_out.len() implies (#[trigger] old_out[l].0@)
        == new_out[l].0@ by {}
    let mo = set_view(old_out);
    let mn = set_view(new_out);
    assert(mo.dom().contains(q));
    assert forall|q2: Seq<char>|
        #![trigger contains_key(new_out, q2)]
        #![trigger contains_key(old_out, q2)]
        contains_key(new_out, q2) == contains_key(old_out, q2) by {
        if contains_key(new_out, q2) {
            let w = choose|w: int| 0 <= w < new_out.len() && (#[trigger] new_out[w].0@) == q2;
            assert(old_out[w].0@ == q2);
        }
        if contains_key(old_out, q2) {
            let w = choose|w: int| 0 <= w < old_out.len() && (#[trigger] old_out[w].0@) == q2;
            assert(new_out[w].0@ == q2);
        }
    }
    assert forall|q2: Seq<char>| contains_key(new_out, q2) implies #[trigger] mn[q2] == mo.insert(
        q,
        mo[q].insert(d, g),
    )[q2] by {
        lemma_find_same_keys(new_out, old_out, q2);
        lemma_find(new_out, q2);
        lemma_find(old_out, q2);
        let w = spec_find(new_out, q2).unwrap();
        if q2 == q {
            assert(w == j);
            assert(mn[q2] == esnap.1.gain_map());
        } else {
            assert(new_out[w].0@ == q2);
            assert(w != j);
            assert(new_out[w] == old_out[w]);
        }
    }
    assert(mn =~~= mo.insert(q, mo[q].insert(d, g)));
}

/// One build step that opened a new query's entry, seen at the map level.
proof fn lemma_judgment_step_push(
    old_out: Seq<(String, QueryJudgments)>,
    new_out: Seq<(String, QueryJudgments)>,
    q: Seq<char>,
    d: Seq<char>,
    g: u32,
)
    requires
        spec_find(old_out, q) is None,
        new_out.len() == old_out.len() + 1,
        new_out.drop_last() == old_out,
        new_out.last().0@ == q,
        new_out.last().1.gain_map() == Map::<Seq<char>, u32>::empty().insert(d, g),
    ensures
        set_view(new_out) == set_view(old_out).insert(q, Map::<Seq<char>, u32>::empty().insert(d, g)),
        !contains_key(old_out, q),
        unique_keys(old_out) ==> unique_keys(new_out),
{
    lemma_find(old_out, q);
    assert(new_out =~= old_out.push(new_out.last()));
    let e = new_out.last();
    assert forall|a: int, b: int| unique_keys(old_out) && 0 <= a < b < new_out.len() implies (
    #[trigger] new_out[a].0@) != (#[trigger] new_out[b].0@) by {
        if b < new_out.len() - 1 {
            assert(old_out[a].0@ != old_out[b].0@);
        } else {
            assert(new_out[b].0@ == q);
            assert(new_out[a].0@ == old_out[a].0@);
        }
    }
    let mo = set_view(old_out);
    let mn = set_view(new_out);
    assert forall|q2: Seq<char>|
        #![trigger contains_key(new_out, q2)]
        #![trigger contains_key(old_out, q2)]
        contains_key(new_out, q2) == (contains_key(old_out, q2) || q2 == q) by {
        if contains_key(new_out, q2) {
            let w = choose|w: int| 0 <= w < new_out.len() && (#[trigger] new_out[w].0@) == q2;
            if w < new_out.len() - 1 {
                assert(old_out[w].0@ == q2);
            }
        }
        if contains_key(old_out, q2) {
            let w = choose|w: int| 0 <= w < old_out.len() && (#[trigger] old_out[w].0@) == q2;
            assert(new_out[w].0@ == q2);
        }
        if q2 == q {
            assert(new_out[new_out.len() - 1].0@ == q2);
        }
    }
    assert forall|q2: Seq<char>| contains_key(new_out, q2) implies #[trigger] mn[q2] == mo.insert(
        q,
        Map::<Seq<char>, u32>::empty().insert(d, g),
    )[q2] by {
        lemma_find_push(old_out, e, q2);
        lemma_find(new_out, q2);
        lemma_find(old_out, q2);
        let w = spec_find(new_out, q2).unwrap();
        if q2 == q {
            assert(spec_find(old_out, q) is None);
            assert(w == old_out.len());
            assert(mn[q2] == e.1.gain_map());
        } else {
            assert(new_out[w].0@ == q2);
            assert(w < old_out.len());
            assert(new_out[w] == old_out[w]);
        }
    }
    assert(mn =~~= mo.insert(q, Map::<Seq<char>, u32>::empty().insert(d, g)));
}

} // verus!
