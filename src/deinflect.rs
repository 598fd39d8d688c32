//! The rule index and the deinflector.
//!
//! A rule file starts with a header line, then lists the reasons (one bare
//! line each, referred to by their position), then the rules: four fields
//! separated by tabs, `from`, `to`, `type` and the index of the reason.
//!
//! A type is a bit field: bit 0 for 一段 verbs (`v1`), bit 1 for 五段 verbs
//! (`v5…`), bit 2 for い-adjectives (`adj-i`), bit 3 for くる verbs (`vk`),
//! bit 4 for する verbs (`vs`, `vs-…`); bit 7 is set on every word so that
//! `0xff & type` is never zero. For a rule, the low byte is the class that
//! the inflected word must have and the next byte the class of the word that
//! undoing the rule gives.
use vstd::prelude::*;
use vstd::hash_map::StringHashMap;
use vstd::string::{StrSliceExecFns, StringExecFns};

use crate::error::Error;
use crate::text::{
    chars_of, decimal_value, lines, lines_of, parse_decimal, split, split_chars, string_of,
    appended, views,
};

verus! {

/// The longest suffix that the deinflector looks up.
pub const MAX_SUFFIX_LEN: usize = 9;

/// The type of the word that deinflection starts from: any class.
pub const ANY_TYPE: u32 = 0xff;

/// What a line of a rule file with the wrong number of fields lacks.
pub const EXPECTED_FIELDS: &'static str = "1 or 4 tab-separated fields";

/// What a rule with an empty suffix lacks.
pub const EXPECTED_SUFFIX: &'static str = "a non-empty suffix";

/// What a rule whose reason index is past the reasons lacks.
pub const EXPECTED_REASON: &'static str = "the index of a listed reason";

/// One rule: replacing the suffix `from` of a word with `to` undoes an
/// inflection, explained by `reason`.
pub struct Rule {
    pub from: String,
    pub to: String,
    pub type_: u32,
    pub reason: String,
}

/// What a rule stands for.
pub struct RuleModel {
    pub from: Seq<char>,
    pub to: Seq<char>,
    pub type_: u32,
    pub reason: Seq<char>,
}

impl View for Rule {
    type V = RuleModel;

    open spec fn view(&self) -> RuleModel {
        RuleModel { from: self.from@, to: self.to@, type_: self.type_, reason: self.reason@ }
    }
}

/// A word that deinflection reached, with the grammatical classes it may have.
pub struct Candidate {
    pub word: String,
    pub type_: u32,
}

impl View for Candidate {
    type V = (Seq<char>, u32);

    open spec fn view(&self) -> (Seq<char>, u32) {
        (self.word@, self.type_)
    }
}

/// What each of a sequence of rules stands for.
pub open spec fn rule_models(rules: Seq<Rule>) -> Seq<RuleModel> {
    rules.map_values(|r: Rule| r@)
}

/// The positions, in increasing order, of the rules among the first `n` whose
/// suffix is `k`.
pub open spec fn indices_with(rules: Seq<RuleModel>, k: Seq<char>, n: nat) -> Seq<usize>
    decreases n,
{
    if n == 0 || n > rules.len() {
        seq![]
    } else if rules[n - 1].from == k {
        indices_with(rules, k, (n - 1) as nat).push((n - 1) as usize)
    } else {
        indices_with(rules, k, (n - 1) as nat)
    }
}

/// The rules whose suffix is `k`, in the order of the rule file.
pub open spec fn rules_with(rules: Seq<RuleModel>, k: Seq<char>) -> Seq<RuleModel> {
    indices_with(rules, k, rules.len()).map_values(|i: usize| rules[i as int])
}

/// The state of a rule file read up to some line: the reasons and the rules.
pub struct RuleFile {
    pub reasons: Seq<Seq<char>>,
    pub rules: Seq<RuleModel>,
}

/// The effect of one line (numbered `lineno`) of a rule file.
pub open spec fn rule_step(st: RuleFile, line: Seq<char>, lineno: nat) -> Result<RuleFile, Error> {
    let fields = split(line, '\t');
    if fields.len() == 1 {
        Ok(RuleFile { reasons: st.reasons.push(line), rules: st.rules })
    } else if fields.len() == 4 {
        match decimal_value(fields[2], u32::MAX as nat) {
            None => Err(Error::ParseInteger { lineno: lineno as usize }),
            Some(t) => match decimal_value(fields[3], usize::MAX as nat) {
                None => Err(Error::ParseInteger { lineno: lineno as usize }),
                Some(ri) => if ri >= st.reasons.len() {
                    Err(Error::ParseError { lineno: lineno as usize, expected: EXPECTED_REASON })
                } else if fields[0].len() == 0 {
                    Err(Error::ParseError { lineno: lineno as usize, expected: EXPECTED_SUFFIX })
                } else {
                    Ok(
                        RuleFile {
                            reasons: st.reasons,
                            rules: st.rules.push(
                                RuleModel {
                                    from: fields[0],
                                    to: fields[1],
                                    type_: t as u32,
                                    reason: st.reasons[ri as int],
                                },
                            ),
                        },
                    )
                },
            },
        }
    } else {
        Err(Error::ParseError { lineno: lineno as usize, expected: EXPECTED_FIELDS })
    }
}

/// A rule file's first `n` lines read; the first line is a header.
pub open spec fn rule_file_upto(lines: Seq<Seq<char>>, n: nat) -> Result<RuleFile, Error>
    decreases n,
{
    if n <= 1 || n > lines.len() {
        Ok(RuleFile { reasons: seq![], rules: seq![] })
    } else {
        match rule_file_upto(lines, (n - 1) as nat) {
            Ok(st) => rule_step(st, lines[n - 1], n),
            Err(e) => Err(e),
        }
    }
}

/// What a rule file holds, or the first error in it.
pub open spec fn rule_file(data: Seq<char>) -> Result<RuleFile, Error> {
    rule_file_upto(lines_of(data), lines_of(data).len())
}

/// The positions listed for a suffix are positions of rules with that suffix.
pub proof fn lemma_indices_with(rules: Seq<RuleModel>, k: Seq<char>, n: nat)
    requires
        rules.len() <= usize::MAX,
    ensures
        forall|j: int|
            0 <= j < indices_with(rules, k, n).len() ==> {
                let i = #[trigger] indices_with(rules, k, n)[j];
                &&& i < n
                &&& i < rules.len()
                &&& rules[i as int].from == k
            },
    decreases n,
{
    if n > 0 && n <= rules.len() {
        lemma_indices_with(rules, k, (n - 1) as nat);
        let prev = indices_with(rules, k, (n - 1) as nat);
        let cur = indices_with(rules, k, n);
        assert(((n - 1) as usize) as int == n - 1);
        assert forall|j: int| 0 <= j < cur.len() implies {
            let i = #[trigger] cur[j];
            &&& i < n
            &&& i < rules.len()
            &&& rules[i as int].from == k
        } by {
            if j < prev.len() {
                assert(cur[j] == prev[j]);
            }
        }
    }
}

/// The positions among the first `n` rules do not change when rules are added.
pub proof fn lemma_indices_prefix(
    rules: Seq<RuleModel>,
    more: Seq<RuleModel>,
    k: Seq<char>,
    n: nat,
)
    requires
        n <= rules.len() <= more.len(),
        rules == more.take(rules.len() as int),
    ensures
        indices_with(rules, k, n) == indices_with(more, k, n),
    decreases n,
{
    if n > 0 {
        lemma_indices_prefix(rules, more, k, (n - 1) as nat);
        assert(rules[n - 1] == more[n - 1]);
    }
}

/// Once a line of a rule file is wrong, the file is.
pub proof fn lemma_rule_error_persists(lines: Seq<Seq<char>>, m: nat, n: nat)
    requires
        1 <= m <= n <= lines.len(),
        rule_file_upto(lines, m) is Err,
    ensures
        rule_file_upto(lines, n) == rule_file_upto(lines, m),
    decreases n,
{
    if n > m {
        lemma_rule_error_persists(lines, m, (n - 1) as nat);
    }
}

/// The candidates in the order of a sequence of them.
pub open spec fn cands(v: Seq<Candidate>) -> Seq<(Seq<char>, u32)> {
    v.map_values(|c: Candidate| c@)
}

/// Whether the rule applies to a word of type `mask`: their classes meet in
/// the rule's low byte.
pub open spec fn applies(r: RuleModel, mask: u32) -> bool {
    mask & (r.type_ & 0xff) != 0
}

/// The word and type that undoing `r`, whose suffix has length `k`, gives.
pub open spec fn undo(r: RuleModel, word: Seq<char>, k: nat) -> (Seq<char>, u32) {
    (word.take(word.len() - k) + r.to, r.type_ >> 8)
}

/// What undoing each of the rules `rs` that applies gives, in order.
pub open spec fn apply_rules(word: Seq<char>, mask: u32, k: nat, rs: Seq<RuleModel>) -> Seq<
    (Seq<char>, u32),
>
    decreases rs.len(),
{
    if rs.len() == 0 {
        seq![]
    } else {
        let rest = apply_rules(word, mask, k, rs.drop_last());
        if applies(rs.last(), mask) {
            rest.push(undo(rs.last(), word, k))
        } else {
            rest
        }
    }
}

/// What undoing one rule whose suffix is at most `k` long gives, shortest
/// suffixes first.
pub open spec fn children_upto(rules: Seq<RuleModel>, word: Seq<char>, mask: u32, k: nat) -> Seq<
    (Seq<char>, u32),
>
    decreases k,
{
    if k == 0 || k > word.len() {
        seq![]
    } else {
        children_upto(rules, word, mask, (k - 1) as nat) + apply_rules(
            word,
            mask,
            k,
            rules_with(rules, word.skip(word.len() - k)),
        )
    }
}

/// The candidates that undoing one rule gives from a word of type `mask`.
pub open spec fn children(rules: Seq<RuleModel>, word: Seq<char>, mask: u32) -> Seq<
    (Seq<char>, u32),
> {
    let k = if word.len() < MAX_SUFFIX_LEN {
        word.len()
    } else {
        MAX_SUFFIX_LEN as nat
    };
    children_upto(rules, word, mask, k)
}

/// Every chain of rules that deinflection can follow from `c` has at most `n`
/// rules.
pub open spec fn chains_within(rules: Seq<RuleModel>, c: (Seq<char>, u32), n: nat) -> bool
    decreases n, 0nat,
{
    let kids = children(rules, c.0, c.1);
    kids.len() == 0 || (n > 0 && all_within(rules, kids, (n - 1) as nat))
}

/// `chains_within` holds of each of `cs`.
pub open spec fn all_within(rules: Seq<RuleModel>, cs: Seq<(Seq<char>, u32)>, n: nat) -> bool
    decreases n, cs.len(),
{
    cs.len() == 0 || (chains_within(rules, cs.last(), n) && all_within(rules, cs.drop_last(), n))
}

/// `all_within` holds of each element.
pub proof fn lemma_all_within_at(rules: Seq<RuleModel>, cs: Seq<(Seq<char>, u32)>, n: nat, i: int)
    requires
        all_within(rules, cs, n),
        0 <= i < cs.len(),
    ensures
        chains_within(rules, cs[i], n),
    decreases cs.len(),
{
    if i < cs.len() - 1 {
        assert(cs.drop_last()[i] == cs[i]);
        lemma_all_within_at(rules, cs.drop_last(), n, i);
    }
}

/// The rules let no chain from `c` go on forever. A rule file is expected to
/// hold no rewrite cycle; this is what deinflection relies on.
pub open spec fn finite_from(rules: Seq<RuleModel>, c: (Seq<char>, u32)) -> bool {
    exists|n: nat| chains_within(rules, c, n)
}

/// A bound on the chains from `c`, where there is one.
pub open spec fn chain_bound(rules: Seq<RuleModel>, c: (Seq<char>, u32)) -> nat {
    choose|n: nat| chains_within(rules, c, n)
}

/// The candidates from `c` through at most `n` rules: `c` itself, then those
/// from the last of its children, and so on back to the first (the order of
/// a stack).
pub open spec fn tree(rules: Seq<RuleModel>, c: (Seq<char>, u32), n: nat) -> Seq<(Seq<char>, u32)>
    decreases n, 0nat,
{
    if n == 0 {
        seq![c]
    } else {
        seq![c] + forest(rules, children(rules, c.0, c.1), (n - 1) as nat)
    }
}

/// The candidates from each of `cs` through at most `n` rules, last first.
pub open spec fn forest(rules: Seq<RuleModel>, cs: Seq<(Seq<char>, u32)>, n: nat) -> Seq<
    (Seq<char>, u32),
>
    decreases n, cs.len(),
{
    if cs.len() == 0 {
        seq![]
    } else {
        tree(rules, cs.last(), n) + forest(rules, cs.drop_last(), n)
    }
}

/// Every candidate that deinflection yields from `c`, where no chain from it
/// goes on forever: the whole tree of what undoing rules gives.
pub open spec fn deinflected(rules: Seq<RuleModel>, c: (Seq<char>, u32)) -> Seq<(Seq<char>, u32)> {
    tree(rules, c, chain_bound(rules, c))
}

/// Past a bound on the chains, more depth adds nothing: the tree is whole.
pub proof fn lemma_tree_whole(rules: Seq<RuleModel>, c: (Seq<char>, u32), n: nat, m: nat)
    requires
        chains_within(rules, c, n),
        n <= m,
    ensures
        tree(rules, c, n) == tree(rules, c, m),
    decreases n, 0nat,
{
    let kids = children(rules, c.0, c.1);
    if kids.len() == 0 {
        assert(forest(rules, kids, (n - 1) as nat) =~= seq![]);
        assert(forest(rules, kids, (m - 1) as nat) =~= seq![]);
        assert(tree(rules, c, n) =~= seq![c]);
        assert(tree(rules, c, m) =~= seq![c]);
    } else {
        lemma_forest_whole(rules, kids, (n - 1) as nat, (m - 1) as nat);
    }
}

/// `lemma_tree_whole` for each of `cs`.
pub proof fn lemma_forest_whole(rules: Seq<RuleModel>, cs: Seq<(Seq<char>, u32)>, n: nat, m: nat)
    requires
        all_within(rules, cs, n),
        n <= m,
    ensures
        forest(rules, cs, n) == forest(rules, cs, m),
    decreases n, cs.len(),
{
    if cs.len() > 0 {
        lemma_tree_whole(rules, cs.last(), n, m);
        lemma_forest_whole(rules, cs.drop_last(), n, m);
    }
}

/// Any bound on the chains gives the same tree.
pub proof fn lemma_deinflected_any_bound(rules: Seq<RuleModel>, c: (Seq<char>, u32), n: nat)
    requires
        chains_within(rules, c, n),
    ensures
        deinflected(rules, c) == tree(rules, c, n),
{
    let b = chain_bound(rules, c);
    assert(chains_within(rules, c, b));
    if b <= n {
        lemma_tree_whole(rules, c, b, n);
    } else {
        lemma_tree_whole(rules, c, n, b);
    }
}

/// Deinflection yields the word that it starts from first, with any type.
pub proof fn lemma_deinflect_yields_seed(rules: Seq<RuleModel>, word: Seq<char>)
    ensures
        deinflected(rules, (word, ANY_TYPE)).len() > 0,
        deinflected(rules, (word, ANY_TYPE))[0] == (word, ANY_TYPE),
{
}

/// `index` maps each suffix to the positions of the rules that remove it.
pub open spec fn index_matches(rules: Seq<RuleModel>, index: Map<Seq<char>, Vec<usize>>) -> bool {
    &&& forall|k: Seq<char>| #[trigger]
        index.contains_key(k) ==> index[k]@ == indices_with(rules, k, rules.len())
    &&& forall|k: Seq<char>| !#[trigger]
        index.contains_key(k) ==> indices_with(rules, k, rules.len()).len() == 0
}

/// Looks up the rules by the suffix of a word that they remove.
pub struct Deinflector {
    rules: Vec<Rule>,
    suffix_to_rules: StringHashMap<Vec<usize>>,
}

impl Deinflector {
    /// The rules, in the order of the rule file.
    pub closed spec fn rules(&self) -> Seq<RuleModel> {
        rule_models(self.rules@)
    }

    /// The suffix index lists, for each suffix, the rules that remove it.
    pub closed spec fn wf(&self) -> bool {
        index_matches(self.rules(), self.suffix_to_rules@)
    }
    /// Reads a rule file.
    pub fn parse(data: &str) -> (r: Result<Self, Error>)
        ensures
            match (r, rule_file(data@)) {
                (Ok(d), Ok(f)) => d.wf() && d.rules() == f.rules,
                (Err(e), Err(e2)) => e == e2,
                _ => false,
            },
    {
        let chars = chars_of(data);
        let ls = lines(&chars);
        let ghost lv = lines_of(data@);
        let mut reasons: Vec<Vec<char>> = Vec::new();
        let mut rules: Vec<Rule> = Vec::new();
        let mut index: StringHashMap<Vec<usize>> = StringHashMap::new();
        let mut i: usize = 1;
        proof {
            assert(views(reasons@) =~= seq![]);
            assert(rule_models(rules@) =~= seq![]);
        }
        while i < ls.len()
            invariant
                views(ls@) == lv,
                lv == lines_of(data@),
                1 <= i,
                ls@.len() == 0 || i <= ls@.len(),
                rule_file_upto(lv, i as nat) == Ok::<RuleFile, Error>(
                    RuleFile { reasons: views(reasons@), rules: rule_models(rules@) },
                ),
                index_matches(rule_models(rules@), index@),
            decreases ls@.len() - i,
        {
            let line = &ls[i];
            let lineno: usize = i + 1;
            let ghost st = RuleFile { reasons: views(reasons@), rules: rule_models(rules@) };
            assert(line@ == lv[i as int]);
            let fields = split_chars(line, '\t');
            if fields.len() == 1 {
                let reason = crate::text::copy_range(line, 0, line.len());
                assert(line@.subrange(0, line@.len() as int) =~= line@);
                reasons.push(reason);
                assert(views(reasons@) =~= st.reasons.push(line@));
            } else if fields.len() == 4 {
                assert(fields@[2]@ == split(line@, '\t')[2]);
                assert(fields@[3]@ == split(line@, '\t')[3]);
                assert(fields@[0]@ == split(line@, '\t')[0]);
                assert(fields@[1]@ == split(line@, '\t')[1]);
                let type_ = match parse_decimal(&fields[2], 0xffff_ffff) {
                    Some(t) => t as u32,
                    None => {
                        proof {
                            lemma_rule_error_persists(lv, (i + 1) as nat, lv.len());
                        }
                        return Err(Error::ParseInteger { lineno });
                    },
                };
                let reason_index = match parse_decimal(&fields[3], usize::MAX as u64) {
                    Some(v) => v as usize,
                    None => {
                        proof {
                            lemma_rule_error_persists(lv, (i + 1) as nat, lv.len());
                        }
                        return Err(Error::ParseInteger { lineno });
                    },
                };
                if reason_index >= reasons.len() {
                    proof {
                        lemma_rule_error_persists(lv, (i + 1) as nat, lv.len());
                    }
                    return Err(Error::ParseError { lineno, expected: EXPECTED_REASON });
                }
                if fields[0].len() == 0 {
                    proof {
                        lemma_rule_error_persists(lv, (i + 1) as nat, lv.len());
                    }
                    return Err(Error::ParseError { lineno, expected: EXPECTED_SUFFIX });
                }
                let n = rules.len();
                let rule = Rule {
                    from: string_of(fields[0].as_slice()),
                    to: string_of(fields[1].as_slice()),
                    type_,
                    reason: string_of(reasons[reason_index].as_slice()),
                };
                let key = string_of(fields[0].as_slice());
                let slots = match index.get(key.as_str()) {
                    Some(v) => appended(v, n),
                    None => vec![n],
                };
                let ghost old_rules = rule_models(rules@);
                let ghost old_index = index@;
                rules.push(rule);
                index.insert(key, slots);
                proof {
                    let nr = rule_models(rules@);
                    assert(nr =~= old_rules.push(rule@));
                    assert(old_rules =~= nr.take(old_rules.len() as int));
                    assert(nr[n as int].from == key@);
                    assert forall|k: Seq<char>| #[trigger] index@.contains_key(k) implies index@[k]@
                        == indices_with(nr, k, nr.len()) by {
                        lemma_indices_prefix(old_rules, nr, k, old_rules.len());
                        if k == key@ {
                            if old_index.contains_key(k) {
                                assert(slots@ == old_index[k]@.push(n));
                            } else {
                                assert(slots@ =~= indices_with(old_rules, k, old_rules.len()).push(
                                    n,
                                ));
                            }
                        } else {
                            assert(old_index.contains_key(k));
                        }
                    }
                    assert forall|k: Seq<char>| !#[trigger] index@.contains_key(k) implies indices_with(
                        nr,
                        k,
                        nr.len(),
                    ).len() == 0 by {
                        lemma_indices_prefix(old_rules, nr, k, old_rules.len());
                        assert(!old_index.contains_key(k));
                    }
                    assert(views(reasons@)[reason_index as int] == st.reasons[reason_index as int]);
                }
            } else {
                proof {
                    lemma_rule_error_persists(lv, (i + 1) as nat, lv.len());
                }
                return Err(Error::ParseError { lineno, expected: EXPECTED_FIELDS });
            }
            i = i + 1;
        }
        assert(ls@.len() == lv.len());
        Ok(Deinflector { rules, suffix_to_rules: index })
    }

    /// The rules that remove `suffix`, in the order of the rule file.
    pub fn rules_for_suffix(&self, suffix: &str) -> (r: Vec<&Rule>)
        requires
            self.wf(),
        ensures
            r@.len() == rules_with(self.rules(), suffix@).len(),
            forall|i: int| 0 <= i < r@.len() ==> r@[i]@ == rules_with(self.rules(), suffix@)[i],
    {
        let mut r: Vec<&Rule> = Vec::new();
        let ghost want = indices_with(self.rules(), suffix@, self.rules().len());
        let count = self.rules.len();
        proof {
            assert(self.rules().len() == count);
            lemma_indices_with(self.rules(), suffix@, self.rules().len());
        }
        match self.suffix_to_rules.get(suffix) {
            Some(slots) => {
                let mut j: usize = 0;
                while j < slots.len()
                    invariant
                        self.wf(),
                        slots@ == want,
                        want == indices_with(self.rules(), suffix@, self.rules().len()),
                        j <= slots@.len(),
                        r@.len() == j,
                        forall|i: int| 0 <= i < j ==> r@[i]@ == rules_with(self.rules(), suffix@)[i],
                        forall|i: int|
                            0 <= i < want.len() ==> #[trigger] want[i] < self.rules().len(),
                    decreases slots@.len() - j,
                {
                    let at = slots[j];
                    r.push(&self.rules[at]);
                    j = j + 1;
                }
            },
            None => {},
        }
        r
    }

    /// The candidates that undoing one rule gives from `word` of type `mask`.
    fn children(&self, word: &String, mask: u32) -> (r: Vec<Candidate>)
        requires
            self.wf(),
        ensures
            cands(r@) == children(self.rules(), word@, mask),
    {
        let w = word.as_str();
        let n = w.unicode_len();
        let top: usize = if n < MAX_SUFFIX_LEN {
            n
        } else {
            MAX_SUFFIX_LEN
        };
        let mut r: Vec<Candidate> = Vec::new();
        let nrules = self.rules.len();
        let mut k: usize = 1;
        while k <= top
            invariant
                self.wf(),
                w@ == word@,
                n == word@.len(),
                top <= n,
                top <= MAX_SUFFIX_LEN,
                nrules == self.rules().len(),
                1 <= k <= top + 1,
                cands(r@) == children_upto(self.rules(), word@, mask, (k - 1) as nat),
            decreases top + 1 - k,
        {
            let suffix = w.substring_char(n - k, n);
            let prefix = w.substring_char(0, n - k);
            let ghost base = cands(r@);
            let ghost rs = rules_with(self.rules(), suffix@);
            let ghost want = indices_with(self.rules(), suffix@, self.rules().len());
            proof {
                lemma_indices_with(self.rules(), suffix@, self.rules().len());
                assert(suffix@ == word@.skip(word@.len() - k));
            }
            match self.suffix_to_rules.get(suffix) {
                Some(slots) => {
                    let mut j: usize = 0;
                    while j < slots.len()
                        invariant
                            self.wf(),
                            slots@ == want,
                            rs == want.map_values(|i: usize| self.rules()[i as int]),
                            forall|i: int|
                                0 <= i < want.len() ==> #[trigger] want[i] < self.rules().len(),
                            prefix@ == word@.take(word@.len() - k),
                            j <= slots@.len(),
                            cands(r@) == base + apply_rules(word@, mask, k as nat, rs.take(j as int)),
                        decreases slots@.len() - j,
                    {
                        let rule = &self.rules[slots[j]];
                        assert(rs.take(j + 1).drop_last() =~= rs.take(j as int));
                        assert(rule@ == rs[j as int]);
                        assert(rs.take(j + 1).last() == rs[j as int]);
                        let ghost old_r = r@;
                        let ghost before = apply_rules(word@, mask, k as nat, rs.take(j as int));
                        if mask & (rule.type_ & 0xff) != 0 {
                            let mut next = String::from_str(prefix);
                            next.append(rule.to.as_str());
                            let c = Candidate { word: next, type_: rule.type_ >> 8 };
                            assert(c@ == undo(rs[j as int], word@, k as nat));
                            assert(applies(rs[j as int], mask));
                            r.push(c);
                            assert(cands(r@) =~= cands(old_r).push(c@));
                            assert(apply_rules(word@, mask, k as nat, rs.take(j + 1)) == before.push(
                                c@,
                            ));
                        } else {
                            assert(!applies(rs[j as int], mask));
                            assert(apply_rules(word@, mask, k as nat, rs.take(j + 1)) == before);
                        }
                        j = j + 1;
                    }
                    assert(rs.take(j as int) =~= rs);
                },
                None => {
                    assert(rs =~= seq![]);
                },
            }
            k = k + 1;
        }
        r
    }

    /// Appends to `out` the candidates from `c` through at most `n` rules,
    /// where no chain from `c` is longer.
    fn collect(&self, c: Candidate, Ghost(n): Ghost<nat>, out: &mut Vec<Candidate>)
        requires
            self.wf(),
            chains_within(self.rules(), c@, n),
        ensures
            cands(final(out)@) == cands(old(out)@) + tree(self.rules(), c@, n),
        decreases n,
    {
        let ghost start = cands(out@);
        let ghost c_view = c@;
        let mut kids = self.children(&c.word, c.type_);
        let ghost all = cands(kids@);
        out.push(c);
        assert(cands(out@) =~= start.push(c_view));
        if kids.len() == 0 {
            assert(tree(self.rules(), c_view, n) =~= seq![c_view]) by {
                if n > 0 {
                    assert(forest(self.rules(), all, (n - 1) as nat) =~= seq![]);
                }
            }
            assert(cands(out@) =~= start + tree(self.rules(), c_view, n));
            return;
        }
        assert(n > 0);
        let ghost m = (n - 1) as nat;
        assert(all =~= all.take(kids@.len() as int));
        while kids.len() > 0
            invariant
                self.wf(),
                n > 0,
                m == n - 1,
                all == children(self.rules(), c_view.0, c_view.1),
                kids@.len() <= all.len(),
                cands(kids@) == all.take(kids@.len() as int),
                all_within(self.rules(), cands(kids@), m),
                cands(out@) + forest(self.rules(), cands(kids@), m) == start + tree(
                    self.rules(),
                    c_view,
                    n,
                ),
            decreases kids@.len(),
        {
            let ghost before = cands(kids@);
            let ghost before_out = cands(out@);
            match kids.pop() {
                Some(kid) => {
                    assert(cands(kids@) =~= before.drop_last());
                    assert(kid@ == before.last());
                    assert(before.last() == all[kids@.len() as int]);
                    assert(cands(kids@) =~= all.take(kids@.len() as int));
                    assert(chains_within(self.rules(), before.last(), m));
                    self.collect(kid, Ghost(m), out);
                    assert(cands(out@) + forest(self.rules(), cands(kids@), m) =~= before_out
                        + forest(self.rules(), before, m));
                },
                None => {},
            }
        }
        assert(cands(kids@) =~= seq![]);
        assert(cands(out@) =~= start + tree(self.rules(), c_view, n));
    }

    /// Every candidate that deinflection yields from `word`: the word itself
    /// with any type, then what undoing rules gives, depth first. The rules
    /// must let no chain from the word go on forever.
    pub fn deinflect_all(&self, word: &str) -> (r: Vec<Candidate>)
        requires
            self.wf(),
            finite_from(self.rules(), (word@, ANY_TYPE)),
        ensures
            cands(r@) == deinflected(self.rules(), (word@, ANY_TYPE)),
    {
        let mut r: Vec<Candidate> = Vec::new();
        let seed = Candidate { word: String::from_str(word), type_: ANY_TYPE };
        let ghost n = chain_bound(self.rules(), (word@, ANY_TYPE));
        self.collect(seed, Ghost(n), &mut r);
        assert(cands(r@) =~= seq![] + deinflected(self.rules(), (word@, ANY_TYPE)));
        r
    }
}

/// The work list after one step: its last candidate taken off, and what
/// undoing one rule gives from it put on.
pub open spec fn step(rules: Seq<RuleModel>, stack: Seq<(Seq<char>, u32)>) -> Seq<(Seq<char>, u32)> {
    let c = stack.last();
    stack.drop_last() + children(rules, c.0, c.1)
}

/// Every chain from each candidate of the work list ends.
pub open spec fn all_finite(rules: Seq<RuleModel>, stack: Seq<(Seq<char>, u32)>) -> bool {
    forall|i: int| 0 <= i < stack.len() ==> #[trigger] finite_from(rules, stack[i])
}

/// The candidates that a work list yields until it is empty: those from its
/// last entry first.
pub open spec fn drained(rules: Seq<RuleModel>, stack: Seq<(Seq<char>, u32)>) -> Seq<
    (Seq<char>, u32),
>
    decreases stack.len(),
{
    if stack.len() == 0 {
        seq![]
    } else {
        deinflected(rules, stack.last()) + drained(rules, stack.drop_last())
    }
}

proof fn lemma_drained_append(
    rules: Seq<RuleModel>,
    s: Seq<(Seq<char>, u32)>,
    cs: Seq<(Seq<char>, u32)>,
    n: nat,
)
    requires
        all_within(rules, cs, n),
    ensures
        drained(rules, s + cs) == forest(rules, cs, n) + drained(rules, s),
    decreases cs.len(),
{
    if cs.len() == 0 {
        assert(s + cs =~= s);
    } else {
        let whole = s + cs;
        assert(whole.last() == cs.last());
        assert(whole.drop_last() =~= s + cs.drop_last());
        lemma_deinflected_any_bound(rules, cs.last(), n);
        lemma_drained_append(rules, s, cs.drop_last(), n);
        assert(drained(rules, whole) =~= forest(rules, cs, n) + drained(rules, s));
    }
}

/// Each step of the work list yields the next candidate that draining it
/// yields, and the chains from what it puts on end: the iterator and
/// `Deinflector::deinflect_all` give the same candidates in the same order.
pub proof fn lemma_step_yields_drained(rules: Seq<RuleModel>, stack: Seq<(Seq<char>, u32)>)
    requires
        stack.len() > 0,
        all_finite(rules, stack),
    ensures
        drained(rules, stack) == seq![stack.last()] + drained(rules, step(rules, stack)),
        all_finite(rules, step(rules, stack)),
{
    let c = stack.last();
    let kids = children(rules, c.0, c.1);
    assert(finite_from(rules, stack[stack.len() - 1]));
    let n = chain_bound(rules, c);
    assert(chains_within(rules, c, n));
    let st = step(rules, stack);
    if kids.len() == 0 {
        assert(deinflected(rules, c) =~= seq![c]) by {
            if n > 0 {
                assert(forest(rules, kids, (n - 1) as nat) =~= seq![]);
            }
        }
        assert(st =~= stack.drop_last());
        assert(drained(rules, stack) =~= seq![c] + drained(rules, st));
    } else {
        let m = (n - 1) as nat;
        lemma_drained_append(rules, stack.drop_last(), kids, m);
        assert(drained(rules, stack) =~= seq![c] + drained(rules, st));
    }
    assert forall|i: int| 0 <= i < st.len() implies #[trigger] finite_from(rules, st[i]) by {
        if i < stack.len() - 1 {
            assert(st[i] == stack[i]);
        } else {
            let k = i - (stack.len() - 1);
            assert(st[i] == kids[k]);
            lemma_all_within_at(rules, kids, (n - 1) as nat, k);
        }
    }
}

/// The work list that deinflection starts with drains to what
/// `Deinflector::deinflect_all` returns.
pub proof fn lemma_start_drains(rules: Seq<RuleModel>, word: Seq<char>)
    ensures
        drained(rules, seq![(word, ANY_TYPE)]) == deinflected(rules, (word, ANY_TYPE)),
{
    let st = seq![(word, ANY_TYPE)];
    assert(st.drop_last() =~= seq![]);
    assert(st.last() == (word, ANY_TYPE));
    assert(drained(rules, st.drop_last()) == Seq::<(Seq<char>, u32)>::empty());
    assert(drained(rules, st) =~= deinflected(rules, (word, ANY_TYPE)));
}

/// The candidates that deinflection yields one at a time, from a work list.
pub struct Iter<'a> {
    deinflector: &'a Deinflector,
    candidates: Vec<Candidate>,
}

impl<'a> Iter<'a> {
    /// The work list: candidates not yet yielded, the next one last.
    pub closed spec fn stack(&self) -> Seq<(Seq<char>, u32)> {
        cands(self.candidates@)
    }

    /// The rules of the deinflector that the work list is expanded with.
    pub closed spec fn rules(&self) -> Seq<RuleModel> {
        self.deinflector.rules()
    }

    /// The deinflector is well formed.
    pub closed spec fn wf(&self) -> bool {
        self.deinflector.wf()
    }

    /// Yields the last candidate of the work list and puts on it what undoing
    /// one rule gives from that candidate.
    pub fn next(&mut self) -> (r: Option<Candidate>)
        requires
            old(self).wf(),
        ensures
            final(self).wf(),
            final(self).rules() == old(self).rules(),
            match r {
                None => old(self).stack().len() == 0 && final(self).stack() == old(self).stack(),
                Some(c) => {
                    &&& old(self).stack().len() > 0
                    &&& c@ == old(self).stack().last()
                    &&& final(self).stack() == step(old(self).rules(), old(self).stack())
                },
            },
    {
        let ghost old_stack = self.stack();
        let ghost d0 = self.deinflector;
        match self.candidates.pop() {
            None => {
                assert(self.stack() =~= old_stack);
                None
            },
            Some(c) => {
                let ghost rest = self.stack();
                assert(rest =~= old_stack.drop_last());
                let mut kids = self.deinflector.children(&c.word, c.type_);
                let ghost all = cands(kids@);
                let mut done: usize = 0;
                let total = kids.len();
                while kids.len() > 0
                    invariant
                        all.len() == total,
                        self.deinflector == d0,
                        d0.wf(),
                        done <= all.len(),
                        cands(kids@) == all.skip(done as int),
                        self.stack() == rest + all.take(done as int),
                    decreases kids@.len(),
                {
                    let ghost before = self.stack();
                    let ghost ks = kids@;
                    assert(cands(ks).len() == ks.len());
                    assert(cands(ks)[0] == ks[0]@);
                    let kid = kids.remove(0);
                    assert(kid@ == all[done as int]);
                    assert(cands(kids@) =~= cands(ks).drop_first());
                    self.candidates.push(kid);
                    assert(cands(kids@) =~= all.skip(done + 1));
                    assert(all.take(done + 1) =~= all.take(done as int).push(all[done as int]));
                    assert(self.stack() =~= before.push(kid@));
                    done = done + 1;
                    assert(self.stack() =~= rest + all.take(done as int));
                }
                assert(all.take(done as int) =~= all);
                Some(c)
            },
        }
    }
}

impl Deinflector {
    /// The candidates that deinflection yields from `word`, one at a time,
    /// starting with `word` itself with any type.
    pub fn deinflect(&self, word: &str) -> (r: Iter<'_>)
        requires
            self.wf(),
        ensures
            r.wf(),
            r.rules() == self.rules(),
            r.stack() == seq![(word@, ANY_TYPE)],
    {
        let mut candidates: Vec<Candidate> = Vec::new();
        candidates.push(Candidate { word: String::from_str(word), type_: ANY_TYPE });
        let r = Iter { deinflector: self, candidates };
        assert(r.stack() =~= seq![(word@, ANY_TYPE)]);
        r
    }
}

} // verus!
