//! Annotation of a text: the dictionary lines of the words that it may hold.
use vstd::prelude::*;
use vstd::hash_map::StringHashMap;
use vstd::string::StringExecFns;

use crate::deinflect::{cands, deinflected, finite_from, rule_file, Candidate, Deinflector, RuleModel, ANY_TYPE};
use crate::edict::{dictionary, Edict, EdictEntry};
use crate::error::Error;
use crate::fragments::{fragments, iter_fragments, slices, strs};
use crate::text::{chars_of, insert_sorted, string_of, strictly_sorted, views};

verus! {

/// The lines of the entries `es` whose type meets `mask`.
pub open spec fn entry_lines(es: Seq<(Seq<char>, u32)>, mask: u32) -> Set<Seq<char>>
    decreases es.len(),
{
    if es.len() == 0 {
        Set::empty()
    } else {
        let rest = entry_lines(es.drop_last(), mask);
        if es.last().1 & mask != 0 {
            rest.insert(es.last().0)
        } else {
            rest
        }
    }
}

/// The lines of the entries under the word of each candidate whose type meets
/// the candidate's.
pub open spec fn candidate_lines(
    dict: Map<Seq<char>, Seq<(Seq<char>, u32)>>,
    cs: Seq<(Seq<char>, u32)>,
) -> Set<Seq<char>>
    decreases cs.len(),
{
    if cs.len() == 0 {
        Set::empty()
    } else {
        let c = cs.last();
        let here = if dict.contains_key(c.0) {
            entry_lines(dict[c.0], c.1)
        } else {
            Set::empty()
        };
        candidate_lines(dict, cs.drop_last()).union(here)
    }
}

/// The dictionary lines that the fragments `frs` lead to through
/// deinflection.
pub open spec fn annotation(
    rules: Seq<RuleModel>,
    dict: Map<Seq<char>, Seq<(Seq<char>, u32)>>,
    frs: Seq<Seq<char>>,
) -> Set<Seq<char>>
    decreases frs.len(),
{
    if frs.len() == 0 {
        Set::empty()
    } else {
        annotation(rules, dict, frs.drop_last()).union(
            candidate_lines(dict, deinflected(rules, (frs.last(), ANY_TYPE))),
        )
    }
}

/// The lines of all the entries under each of the fragments `frs`.
pub open spec fn name_lines(dict: Map<Seq<char>, Seq<(Seq<char>, u32)>>, frs: Seq<Seq<char>>) -> Set<
    Seq<char>,
>
    decreases frs.len(),
{
    if frs.len() == 0 {
        Set::empty()
    } else {
        let f = frs.last();
        let here = if dict.contains_key(f) {
            dict[f].map_values(|e: (Seq<char>, u32)| e.0).to_set()
        } else {
            Set::empty()
        };
        name_lines(dict, frs.drop_last()).union(here)
    }
}

/// A fragment met before adds no line.
proof fn lemma_annotation_covers(
    rules: Seq<RuleModel>,
    dict: Map<Seq<char>, Seq<(Seq<char>, u32)>>,
    frs: Seq<Seq<char>>,
    i: int,
)
    requires
        0 <= i < frs.len(),
    ensures
        candidate_lines(dict, deinflected(rules, (frs[i], ANY_TYPE))).subset_of(
            annotation(rules, dict, frs),
        ),
    decreases frs.len(),
{
    if i < frs.len() - 1 {
        lemma_annotation_covers(rules, dict, frs.drop_last(), i);
    }
}

/// What each of a sequence of entries stands for.
pub open spec fn entry_views(es: Seq<&EdictEntry>) -> Seq<(Seq<char>, u32)> {
    es.map_values(|e: &EdictEntry| e@)
}

/// Adds the lines of the entries whose type meets `mask`.
fn add_entry_lines(found: &mut Vec<Vec<char>>, es: &Vec<&EdictEntry>, mask: u32)
    requires
        strictly_sorted(views(old(found)@)),
    ensures
        strictly_sorted(views(final(found)@)),
        views(final(found)@).to_set() == views(old(found)@).to_set().union(
            entry_lines(entry_views(es@), mask),
        ),
{
    let ghost start = views(found@).to_set();
    let ghost all = entry_views(es@);
    let mut m: usize = 0;
    while m < es.len()
        invariant
            all == entry_views(es@),
            m <= es@.len(),
            strictly_sorted(views(found@)),
            views(found@).to_set() == start.union(entry_lines(all.take(m as int), mask)),
        decreases es@.len() - m,
    {
        let e = es[m];
        assert(all.take(m + 1).drop_last() =~= all.take(m as int));
        assert(all.take(m + 1).last() == e@);
        if e.type_ & mask != 0 {
            let line = chars_of(e.line.as_str());
            insert_sorted(found, line);
            assert(views(found@).to_set() =~= start.union(entry_lines(all.take(m + 1), mask)));
        }
        m = m + 1;
    }
    assert(all.take(m as int) =~= all);
}

/// The texts of a sorted list.
fn strings_of(found: &Vec<Vec<char>>) -> (r: Vec<String>)
    ensures
        strs(r@) == views(found@),
{
    let mut r: Vec<String> = Vec::new();
    let mut i: usize = 0;
    while i < found.len()
        invariant
            i <= found@.len(),
            strs(r@) == views(found@).take(i as int),
        decreases found@.len() - i,
    {
        let s = string_of(found[i].as_slice());
        let ghost prev = r@;
        r.push(s);
        assert(strs(r@) =~= strs(prev).push(s@));
        i = i + 1;
        assert(strs(r@) =~= views(found@).take(i as int));
    }
    assert(views(found@).take(i as int) =~= views(found@));
    r
}

/// A dictionary and the rules to deinflect the words looked up in it.
pub struct SubEdictCreator {
    edict2: Edict,
    deinflector: Deinflector,
}

impl SubEdictCreator {
    /// Both indexes are well formed.
    pub closed spec fn wf(&self) -> bool {
        self.edict2.wf() && self.deinflector.wf()
    }

    /// The dictionary index.
    pub closed spec fn dictionary(&self) -> Map<Seq<char>, Seq<(Seq<char>, u32)>> {
        self.edict2@
    }

    /// The deinflection rules.
    pub closed spec fn rules(&self) -> Seq<RuleModel> {
        self.deinflector.rules()
    }

    /// Reads a dictionary file and a rule file; where both are wrong, the
    /// error is the dictionary file's.
    pub fn new(edict2_data: &str, deinflector_data: &str) -> (r: Result<Self, Error>)
        ensures
            match (dictionary(edict2_data@), rule_file(deinflector_data@)) {
                (Ok(m), Ok(f)) => r is Ok && r->Ok_0.wf() && r->Ok_0.dictionary() == m
                    && r->Ok_0.rules() == f.rules,
                (Err(e), _) => r == Err::<Self, Error>(e),
                (Ok(_), Err(e)) => r == Err::<Self, Error>(e),
            },
    {
        let edict2 = match Edict::parse(edict2_data) {
            Ok(d) => d,
            Err(e) => {
                return Err(e);
            },
        };
        let deinflector = match Deinflector::parse(deinflector_data) {
            Ok(d) => d,
            Err(e) => {
                return Err(e);
            },
        };
        Ok(SubEdictCreator { edict2, deinflector })
    }

    /// Adds the lines that the candidates lead to.
    fn add_candidate_lines(&self, found: &mut Vec<Vec<char>>, cs: &Vec<Candidate>)
        requires
            self.wf(),
            strictly_sorted(views(old(found)@)),
        ensures
            strictly_sorted(views(final(found)@)),
            views(final(found)@).to_set() == views(old(found)@).to_set().union(
                candidate_lines(self.dictionary(), cands(cs@)),
            ),
    {
        let ghost start = views(found@).to_set();
        let ghost all = cands(cs@);
        let mut j: usize = 0;
        while j < cs.len()
            invariant
                self.wf(),
                all == cands(cs@),
                j <= cs@.len(),
                strictly_sorted(views(found@)),
                views(found@).to_set() == start.union(
                    candidate_lines(self.dictionary(), all.take(j as int)),
                ),
            decreases cs@.len() - j,
        {
            let c = &cs[j];
            assert(all.take(j + 1).drop_last() =~= all.take(j as int));
            assert(all.take(j + 1).last() == c@);
            match self.edict2.lookup(c.word.as_str()) {
                Some(es) => {
                    assert(entry_views(es@) =~= self.dictionary()[c.word@]);
                    add_entry_lines(found, &es, c.type_);
                },
                None => {
                    assert(candidate_lines(self.dictionary(), all.take(j + 1)) =~= candidate_lines(
                        self.dictionary(),
                        all.take(j as int),
                    ));
                },
            }
            assert(views(found@).to_set() =~= start.union(
                candidate_lines(self.dictionary(), all.take(j + 1)),
            ));
            j = j + 1;
        }
        assert(all.take(j as int) =~= all);
    }

    /// The dictionary lines that the words of `content` lead to: each
    /// fragment of the text, deinflected, looked up, and kept where the
    /// types meet; sorted and without repeats. The rules must let no chain
    /// from a fragment go on forever.
    pub fn from(&self, content: &str) -> (r: Vec<String>)
        requires
            self.wf(),
            forall|f: Seq<char>| #[trigger]
                fragments(content@).contains(f) ==> finite_from(self.rules(), (f, ANY_TYPE)),
        ensures
            strictly_sorted(strs(r@)),
            strs(r@).to_set() == annotation(self.rules(), self.dictionary(), fragments(content@)),
    {
        let frs = iter_fragments(content);
        let ghost all = slices(frs@);
        let mut seen: StringHashMap<bool> = StringHashMap::new();
        let mut found: Vec<Vec<char>> = Vec::new();
        assert(views(found@).to_set() =~= Set::empty());
        let mut k: usize = 0;
        while k < frs.len()
            invariant
                self.wf(),
                all == slices(frs@),
                all == fragments(content@),
                forall|x: Seq<char>| #[trigger]
                    all.contains(x) ==> finite_from(self.rules(), (x, ANY_TYPE)),
                k <= frs@.len(),
                strictly_sorted(views(found@)),
                forall|x: Seq<char>| #[trigger]
                    seen@.contains_key(x) <==> all.take(k as int).contains(x),
                views(found@).to_set() == annotation(
                    self.rules(),
                    self.dictionary(),
                    all.take(k as int),
                ),
            decreases frs@.len() - k,
        {
            let f: &str = frs[k];
            assert(all.take(k + 1).drop_last() =~= all.take(k as int));
            assert(all.take(k + 1).last() == f@);
            if seen.contains_key(f) {
                proof {
                    let t0 = all.take(k as int);
                    assert(t0.contains(f@));
                    let i = choose|i: int| 0 <= i < t0.len() && t0[i] == f@;
                    lemma_annotation_covers(
                        self.rules(),
                        self.dictionary(),
                        all.take(k as int),
                        i,
                    );
                    assert(views(found@).to_set() =~= annotation(
                        self.rules(),
                        self.dictionary(),
                        all.take(k + 1),
                    ));
                }
            } else {
                seen.insert(String::from_str(f), true);
                assert(all[k as int] == f@);
                assert(all.contains(f@));
                let cs = self.deinflector.deinflect_all(f);
                self.add_candidate_lines(&mut found, &cs);
            }
            proof {
                let t0 = all.take(k as int);
                let t1 = all.take(k + 1);
                assert forall|x: Seq<char>| t1.contains(x) implies #[trigger] seen@.contains_key(x) by {
                    if x != f@ {
                        let i = choose|i: int| 0 <= i < t1.len() && t1[i] == x;
                        assert(t0[i] == x);
                    }
                }
                assert forall|x: Seq<char>| #[trigger] seen@.contains_key(x) implies t1.contains(x) by {
                    if x != f@ {
                        let i = choose|i: int| 0 <= i < t0.len() && t0[i] == x;
                        assert(t1[i] == x);
                    } else {
                        assert(t1[k as int] == x);
                    }
                }
            }
            k = k + 1;
        }
        assert(all.take(k as int) =~= all);
        strings_of(&found)
    }
}

/// A dictionary of names, which do not inflect.
pub struct SubEnamdictCreator {
    enamdict: Edict,
}

impl SubEnamdictCreator {
    /// The index is well formed.
    pub closed spec fn wf(&self) -> bool {
        self.enamdict.wf()
    }

    /// The dictionary index.
    pub closed spec fn dictionary(&self) -> Map<Seq<char>, Seq<(Seq<char>, u32)>> {
        self.enamdict@
    }

    /// Reads a dictionary file of names.
    pub fn new(enamdict_data: &str) -> (r: Result<Self, Error>)
        ensures
            match dictionary(enamdict_data@) {
                Ok(m) => r is Ok && r->Ok_0.wf() && r->Ok_0.dictionary() == m,
                Err(e) => r == Err::<Self, Error>(e),
            },
    {
        match Edict::parse(enamdict_data) {
            Ok(enamdict) => Ok(SubEnamdictCreator { enamdict }),
            Err(e) => Err(e),
        }
    }

    /// The dictionary lines under the fragments of `content`, looked up as
    /// they are; sorted and without repeats.
    pub fn from(&self, content: &str) -> (r: Vec<String>)
        requires
            self.wf(),
        ensures
            strictly_sorted(strs(r@)),
            strs(r@).to_set() == name_lines(self.dictionary(), fragments(content@)),
    {
        let frs = iter_fragments(content);
        let ghost all = slices(frs@);
        let mut found: Vec<Vec<char>> = Vec::new();
        assert(views(found@).to_set() =~= Set::empty());
        let mut k: usize = 0;
        while k < frs.len()
            invariant
                self.wf(),
                all == slices(frs@),
                all == fragments(content@),
                k <= frs@.len(),
                strictly_sorted(views(found@)),
                views(found@).to_set() == name_lines(self.dictionary(), all.take(k as int)),
            decreases frs@.len() - k,
        {
            let f: &str = frs[k];
            assert(all.take(k + 1).drop_last() =~= all.take(k as int));
            assert(all.take(k + 1).last() == f@);
            let ghost before = views(found@).to_set();
            match self.enamdict.lookup(f) {
                Some(es) => {
                    let ghost ev = entry_views(es@);
                    assert(ev =~= self.dictionary()[f@]);
                    let mut m: usize = 0;
                    while m < es.len()
                        invariant
                            ev == entry_views(es@),
                            m <= es@.len(),
                            strictly_sorted(views(found@)),
                            views(found@).to_set() == before.union(
                                ev.take(m as int).map_values(|e: (Seq<char>, u32)| e.0).to_set(),
                            ),
                        decreases es@.len() - m,
                    {
                        let line = chars_of(es[m].line.as_str());
                        insert_sorted(&mut found, line);
                        proof {
                            let a = ev.take(m as int).map_values(|e: (Seq<char>, u32)| e.0);
                            let b = ev.take(m + 1).map_values(|e: (Seq<char>, u32)| e.0);
                            assert(b =~= a.push(line@));
                            assert(b.to_set() =~= a.to_set().insert(line@)) by {
                                assert forall|x: Seq<char>| b.contains(x) <==> a.contains(x) || x
                                    == line@ by {
                                    if a.contains(x) {
                                        let i = choose|i: int| 0 <= i < a.len() && a[i] == x;
                                        assert(b[i] == x);
                                    }
                                    if x == line@ {
                                        assert(b[m as int] == x);
                                    }
                                    if b.contains(x) {
                                        let i = choose|i: int| 0 <= i < b.len() && b[i] == x;
                                        if i < m {
                                            assert(a[i] == x);
                                        }
                                    }
                                }
                            }
                            assert(views(found@).to_set() =~= before.union(b.to_set()));
                        }
                        m = m + 1;
                    }
                    assert(ev.take(m as int) =~= ev);
                },
                None => {},
            }
            assert(views(found@).to_set() =~= name_lines(self.dictionary(), all.take(k + 1)));
            k = k + 1;
        }
        assert(all.take(k as int) =~= all);
        strings_of(&found)
    }
}

} // verus!
