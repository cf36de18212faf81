//! The signal roles each protocol binds, and which signals fill them.

use vstd::prelude::*;

use crate::text::{ascii_lower, ascii_lowercase_chars, chars_of, contains_chars, contains_seq};
use crate::wave_container::{VariableRef, VariableRefView};

verus! {

/// Which protocol a decoder speaks.
#[derive(Debug, Clone, Copy, PartialEq, Eq, Structural)]
pub enum Protocol {
    Spi,
    I2c,
    Uart,
}

/// A named signal input of a decoder, e.g. SPI's `SCLK`.
#[derive(Debug, Clone, PartialEq, Eq)]
pub struct Role {
    pub name: &'static str,
    /// Whether decoding is impossible without this signal.
    pub required: bool,
    /// Lowercase substrings that suggest a signal fills this role, used to
    /// pre-assign roles when a decoder is created from a group.
    pub aliases: Vec<&'static str>,
}

pub struct RoleView {
    pub name: &'static str,
    pub required: bool,
    pub aliases: Seq<&'static str>,
}

impl View for Role {
    type V = RoleView;

    open spec fn view(&self) -> RoleView {
        RoleView { name: self.name, required: self.required, aliases: self.aliases@ }
    }
}

pub open spec fn role_spec(name: &'static str, required: bool, aliases: Seq<&'static str>) -> RoleView {
    RoleView { name, required, aliases }
}

/// The roles of each protocol, in the order they are presented and bound.
pub open spec fn roles_spec(p: Protocol) -> Seq<RoleView> {
    match p {
        Protocol::Spi => seq![
            role_spec("SCLK", true, seq!["sclk", "sck", "scl", "clk"]),
            role_spec("MOSI", false, seq!["mosi", "copi", "sdo", "din", "tx"]),
            role_spec("MISO", false, seq!["miso", "cipo", "sdi", "dout", "rx"]),
            role_spec("CS", false, seq!["cs_n", "csn", "ss_n", "ssn", "nss", "cs", "ss"]),
        ],
        Protocol::I2c => seq![
            role_spec("SCL", true, seq!["scl", "i2c_clk", "sclk", "clk"]),
            role_spec("SDA", true, seq!["sda", "i2c_data", "data"]),
        ],
        Protocol::Uart => seq![
            role_spec("Line", true, seq!["uart", "tx", "rx", "txd", "rxd", "serial", "sout", "sin"]),
        ],
    }
}

pub open spec fn roles_view(rs: Seq<Role>) -> Seq<RoleView> {
    rs.map_values(|r: Role| r@)
}

fn strs(a: &[&'static str]) -> (v: Vec<&'static str>)
    ensures
        v@ == a@,
{
    let mut v: Vec<&'static str> = Vec::new();
    let mut i: usize = 0;
    while i < a.len()
        invariant
            i <= a@.len(),
            v@ == a@.take(i as int),
        decreases a@.len() - i,
    {
        v.push(a[i]);
        i = i + 1;
        assert(v@ =~= a@.take(i as int));
    }
    assert(a@.take(a@.len() as int) =~= a@);
    v
}

fn role(name: &'static str, required: bool, aliases: &[&'static str]) -> (r: Role)
    ensures
        r@ == role_spec(name, required, aliases@),
{
    Role { name, required, aliases: strs(aliases) }
}

impl Protocol {
    /// Signal roles this protocol binds, in the order they should be presented.
    #[must_use]
    pub fn roles(self) -> (r: Vec<Role>)
        ensures
            roles_view(r@) == roles_spec(self),
    {
        let mut r: Vec<Role> = Vec::new();
        match self {
            Protocol::Spi => {
                r.push(role("SCLK", true, &["sclk", "sck", "scl", "clk"]));
                r.push(role("MOSI", false, &["mosi", "copi", "sdo", "din", "tx"]));
                r.push(role("MISO", false, &["miso", "cipo", "sdi", "dout", "rx"]));
                r.push(role("CS", false, &["cs_n", "csn", "ss_n", "ssn", "nss", "cs", "ss"]));
            },
            Protocol::I2c => {
                r.push(role("SCL", true, &["scl", "i2c_clk", "sclk", "clk"]));
                r.push(role("SDA", true, &["sda", "i2c_data", "data"]));
            },
            Protocol::Uart => {
                r.push(role("Line", true, &["uart", "tx", "rx", "txd", "rxd", "serial", "sout", "sin"]));
            },
        }
        assert(roles_view(r@) =~= roles_spec(self));
        r
    }
}

/// The signals bound to a protocol's roles, by name.
pub type BindingsView = Seq<Option<VariableRefView>>;

/// Signals bound to a decoder's roles. Kept parallel to [`Protocol::roles`] by
/// index rather than by name so that renaming a role does not silently orphan
/// a binding in a saved state file.
#[derive(Debug, Clone, Default, PartialEq)]
pub struct RoleBindings {
    pub signals: Vec<Option<VariableRef>>,
}

pub open spec fn opt_view(o: Option<VariableRef>) -> Option<VariableRefView> {
    match o {
        Some(v) => Some(v@),
        None => None,
    }
}

impl View for RoleBindings {
    type V = BindingsView;

    open spec fn view(&self) -> BindingsView {
        self.signals@.map_values(|o: Option<VariableRef>| opt_view(o))
    }
}

/// Every `(role index, alias)` pair, roles in order and each role's aliases in order.
pub open spec fn alias_pairs(roles: Seq<RoleView>) -> Seq<(usize, &'static str)>
    decreases roles.len(),
{
    if roles.len() == 0 {
        Seq::empty()
    } else {
        alias_pairs(roles.drop_last()) + roles.last().aliases.map_values(
            |a: &'static str| ((roles.len() - 1) as usize, a),
        )
    }
}

/// Byte length of an alias, which orders how specific it is.
pub open spec fn alias_len(a: &str) -> nat {
    a.len() as nat
}

/// `e` inserted after every pair whose alias is at least as long.
pub open spec fn insert_longest_first(s: Seq<(usize, &'static str)>, e: (usize, &'static str)) -> Seq<
    (usize, &'static str),
>
    decreases s.len(),
{
    if s.len() == 0 {
        seq![e]
    } else if alias_len(s.last().1) >= alias_len(e.1) {
        s.push(e)
    } else {
        insert_longest_first(s.drop_last(), e).push(s.last())
    }
}

/// The pairs ordered longest alias first, pairs with aliases of equal length
/// kept in their original order.
pub open spec fn sort_longest_first(s: Seq<(usize, &'static str)>) -> Seq<(usize, &'static str)>
    decreases s.len(),
{
    if s.len() == 0 {
        Seq::empty()
    } else {
        insert_longest_first(sort_longest_first(s.drop_last()), s.last())
    }
}

/// The signal's name, lowercased, contains the alias.
pub open spec fn name_matches(c: VariableRefView, alias: &str) -> bool {
    contains_seq(ascii_lower(c.name), alias@)
}

/// The first candidate at or after `from` that is not taken and whose name
/// matches `alias`.
pub open spec fn first_free_match(cands: Seq<VariableRefView>, taken: Seq<bool>, alias: &str, from: int) -> Option<
    int,
>
    decreases cands.len() - from,
{
    if from < 0 || from >= cands.len() {
        None
    } else if !taken[from] && name_matches(cands[from], alias) {
        Some(from)
    } else {
        first_free_match(cands, taken, alias, from + 1)
    }
}

/// The roles bound so far, the candidates already used, and for each bound
/// role the position of the candidate it took (-1 while unbound).
pub struct GuessState {
    pub signals: BindingsView,
    pub taken: Seq<bool>,
    pub chosen: Seq<int>,
}

/// One alias claims the first free matching candidate for its role, unless
/// the role is already bound.
pub open spec fn guess_step(cands: Seq<VariableRefView>, st: GuessState, pair: (usize, &'static str)) -> GuessState {
    let (ri, alias) = pair;
    if st.signals[ri as int] is Some {
        st
    } else {
        match first_free_match(cands, st.taken, alias, 0) {
            None => st,
            Some(c) => GuessState {
                signals: st.signals.update(ri as int, Some(cands[c])),
                taken: st.taken.update(c, true),
                chosen: st.chosen.update(ri as int, c),
            },
        }
    }
}

pub open spec fn guess_run(
    cands: Seq<VariableRefView>,
    n_roles: nat,
    pairs: Seq<(usize, &'static str)>,
) -> GuessState
    decreases pairs.len(),
{
    if pairs.len() == 0 {
        GuessState {
            signals: Seq::new(n_roles, |i: int| None),
            taken: Seq::new(cands.len(), |i: int| false),
            chosen: Seq::new(n_roles, |i: int| -1),
        }
    } else {
        guess_step(cands, guess_run(cands, n_roles, pairs.drop_last()), pairs.last())
    }
}

/// The bindings guessed for `p` from the candidates' names: aliases are tried
/// longest first, so that `sclk` wins over `clk`.
pub open spec fn guess_spec(p: Protocol, cands: Seq<VariableRefView>) -> BindingsView {
    let roles = roles_spec(p);
    guess_run(cands, roles.len(), sort_longest_first(alias_pairs(roles))).signals
}

/// For each role of `p`, the position of the candidate the guess bound to it.
pub open spec fn guess_choices(p: Protocol, cands: Seq<VariableRefView>) -> Seq<int> {
    let roles = roles_spec(p);
    guess_run(cands, roles.len(), sort_longest_first(alias_pairs(roles))).chosen
}

/// The names of the required roles that have no signal.
pub open spec fn missing_spec(roles: Seq<RoleView>, b: BindingsView) -> Seq<&'static str>
    decreases roles.len(),
{
    if roles.len() == 0 {
        Seq::empty()
    } else {
        let i = roles.len() - 1;
        let rest = missing_spec(roles.drop_last(), b);
        if roles.last().required && !(i < b.len() && b[i] is Some) {
            rest.push(roles.last().name)
        } else {
            rest
        }
    }
}

proof fn lemma_insert_longest_at(s: Seq<(usize, &'static str)>, e: (usize, &'static str), k: int)
    requires
        0 <= k <= s.len(),
        forall|m: int| k <= m < s.len() ==> alias_len(s[m].1) < alias_len(e.1),
        k == 0 || alias_len(s[k - 1].1) >= alias_len(e.1),
    ensures
        insert_longest_first(s, e) == s.take(k).push(e) + s.skip(k),
    decreases s.len(),
{
    if s.len() == 0 {
        assert(s.take(k).push(e) + s.skip(k) =~= seq![e]);
    } else if alias_len(s.last().1) >= alias_len(e.1) {
        assert(k == s.len());
        assert(s.take(k).push(e) + s.skip(k) =~= s.push(e));
    } else {
        lemma_insert_longest_at(s.drop_last(), e, k);
        let d = s.drop_last();
        assert(d.take(k).push(e) + d.skip(k) + seq![s.last()] =~= s.take(k).push(e) + s.skip(k));
    }
}

/// Every pair holds the index of one of the roles.
proof fn lemma_alias_pairs_in_range(roles: Seq<RoleView>)
    ensures
        forall|i: int| 0 <= i < alias_pairs(roles).len() ==> (#[trigger] alias_pairs(roles)[i]).0 < roles.len(),
    decreases roles.len(),
{
    if roles.len() > 0 {
        let d = roles.drop_last();
        lemma_alias_pairs_in_range(d);
        let a = alias_pairs(d);
        let b = roles.last().aliases.map_values(|x: &'static str| ((roles.len() - 1) as usize, x));
        assert forall|i: int| 0 <= i < alias_pairs(roles).len() implies (#[trigger] alias_pairs(roles)[i]).0 < roles.len() by {
            if i < a.len() {
                assert(alias_pairs(roles)[i] == a[i]);
            } else {
                assert(alias_pairs(roles)[i] == b[i - a.len()]);
            }
        }
    }
}

/// Each pair names a role and one of that role's aliases.
proof fn lemma_alias_pairs_valid(roles: Seq<RoleView>)
    requires
        roles.len() <= usize::MAX,
    ensures
        forall|i: int|
            0 <= i < alias_pairs(roles).len() ==> {
                let pr = #[trigger] alias_pairs(roles)[i];
                &&& pr.0 < roles.len()
                &&& roles[pr.0 as int].aliases.contains(pr.1)
            },
    decreases roles.len(),
{
    if roles.len() > 0 {
        let d = roles.drop_last();
        lemma_alias_pairs_valid(d);
        let a = alias_pairs(d);
        let last = roles.last();
        let b = last.aliases.map_values(|x: &'static str| ((roles.len() - 1) as usize, x));
        assert forall|i: int| 0 <= i < alias_pairs(roles).len() implies {
            let pr = #[trigger] alias_pairs(roles)[i];
            &&& pr.0 < roles.len()
            &&& roles[pr.0 as int].aliases.contains(pr.1)
        } by {
            if i < a.len() {
                assert(alias_pairs(roles)[i] == a[i]);
                assert(roles[a[i].0 as int] == d[a[i].0 as int]);
            } else {
                let k = i - a.len();
                assert(alias_pairs(roles)[i] == b[k]);
                assert(b[k].0 == roles.len() - 1);
                assert(last.aliases[k] == b[k].1);
                assert(roles[roles.len() - 1] == last);
            }
        }
    }
}

/// Ordering the pairs longest first neither loses nor adds a pair.
proof fn lemma_sort_longest_members(s: Seq<(usize, &'static str)>)
    ensures
        sort_longest_first(s).to_multiset() == s.to_multiset(),
    decreases s.len(),
{
    broadcast use vstd::seq_lib::group_to_multiset_ensures;

    if s.len() > 0 {
        lemma_sort_longest_members(s.drop_last());
        lemma_insert_longest_members(sort_longest_first(s.drop_last()), s.last());
        assert(s.drop_last().push(s.last()) =~= s);
    }
}

proof fn lemma_insert_longest_members(s: Seq<(usize, &'static str)>, e: (usize, &'static str))
    ensures
        insert_longest_first(s, e).to_multiset() == s.to_multiset().insert(e),
    decreases s.len(),
{
    broadcast use vstd::seq_lib::group_to_multiset_ensures;

    if s.len() > 0 && alias_len(s.last().1) < alias_len(e.1) {
        lemma_insert_longest_members(s.drop_last(), e);
        assert(s.drop_last().push(s.last()) =~= s);
    }
}

/// What `first_free_match` finds is free and matches; when it finds nothing,
/// no free candidate from `from` on matches.
proof fn lemma_first_free_match(cands: Seq<VariableRefView>, taken: Seq<bool>, alias: &str, from: int)
    requires
        taken.len() == cands.len(),
        0 <= from,
    ensures
        first_free_match(cands, taken, alias, from) matches Some(c) ==> from <= c < cands.len() && !taken[c]
            && name_matches(cands[c], alias),
        first_free_match(cands, taken, alias, from) is None ==> forall|c: int|
            from <= c < cands.len() && name_matches(cands[c], alias) ==> taken[c],
    decreases cands.len() - from,
{
    if from < cands.len() && !(!taken[from] && name_matches(cands[from], alias)) {
        lemma_first_free_match(cands, taken, alias, from + 1);
    }
}

/// Every bound role holds the candidate at its chosen position, marked taken,
/// whose lowercased name contains one of that role's aliases; no two bound
/// roles hold the same position.
pub open spec fn bindings_sound(roles: Seq<RoleView>, cands: Seq<VariableRefView>, st: GuessState) -> bool {
    &&& st.signals.len() == roles.len()
    &&& st.taken.len() == cands.len()
    &&& st.chosen.len() == roles.len()
    &&& forall|i: int|
        0 <= i < roles.len() && (#[trigger] st.signals[i]) is Some ==> {
            let c = st.chosen[i];
            &&& 0 <= c < cands.len()
            &&& st.taken[c]
            &&& cands[c] == st.signals[i]->0
            &&& exists|a: &'static str| roles[i].aliases.contains(a) && name_matches(cands[c], a)
        }
    &&& forall|i: int, j: int|
        0 <= i < roles.len() && 0 <= j < roles.len() && i != j && (#[trigger] st.signals[i]) is Some
            && (#[trigger] st.signals[j]) is Some ==> st.chosen[i] != st.chosen[j]
}

proof fn lemma_guess_run_sound(
    roles: Seq<RoleView>,
    cands: Seq<VariableRefView>,
    pairs: Seq<(usize, &'static str)>,
)
    requires
        forall|i: int|
            0 <= i < pairs.len() ==> (#[trigger] pairs[i]).0 < roles.len() && roles[pairs[i].0 as int].aliases.contains(
                pairs[i].1,
            ),
    ensures
        bindings_sound(roles, cands, guess_run(cands, roles.len(), pairs)),
    decreases pairs.len(),
{
    if pairs.len() > 0 {
        let d = pairs.drop_last();
        assert forall|i: int| 0 <= i < d.len() implies (#[trigger] d[i]).0 < roles.len() && roles[d[i].0 as int].aliases.contains(
            d[i].1,
        ) by {
            assert(d[i] == pairs[i]);
        }
        lemma_guess_run_sound(roles, cands, d);
        let st = guess_run(cands, roles.len(), d);
        let pr = pairs.last();
        assert(pr == pairs[pairs.len() - 1]);
        let (ri, alias) = pr;
        let nx = guess_run(cands, roles.len(), pairs);
        if st.signals[ri as int] is None {
            lemma_first_free_match(cands, st.taken, alias, 0);
            if let Some(c) = first_free_match(cands, st.taken, alias, 0) {
                assert(nx.signals == st.signals.update(ri as int, Some(cands[c])));
                assert(nx.chosen == st.chosen.update(ri as int, c));
                assert forall|i: int| 0 <= i < roles.len() && (#[trigger] nx.signals[i]) is Some implies {
                    let c2 = nx.chosen[i];
                    &&& 0 <= c2 < cands.len()
                    &&& nx.taken[c2]
                    &&& cands[c2] == nx.signals[i]->0
                    &&& exists|a: &'static str| roles[i].aliases.contains(a) && name_matches(cands[c2], a)
                } by {
                    if i != ri as int {
                        assert(nx.signals[i] == st.signals[i]);
                        assert(st.signals[i] is Some);
                    }
                }
                assert forall|i: int, j: int|
                    0 <= i < roles.len() && 0 <= j < roles.len() && i != j && (#[trigger] nx.signals[i]) is Some
                        && (#[trigger] nx.signals[j]) is Some implies nx.chosen[i] != nx.chosen[j] by {
                    if i == ri as int {
                        assert(st.signals[j] is Some);
                        assert(st.taken[st.chosen[j]]);
                    } else if j == ri as int {
                        assert(st.signals[i] is Some);
                        assert(st.taken[st.chosen[i]]);
                    } else {
                        assert(st.signals[i] is Some && st.signals[j] is Some);
                    }
                }
            }
        }
    } else {
        let st = guess_run(cands, roles.len(), pairs);
        assert forall|i: int| 0 <= i < roles.len() implies !((#[trigger] st.signals[i]) is Some) by {}
    }
}

/// A guess binds each role of the protocol to at most one candidate, only to
/// a candidate whose lowercased name contains one of that role's aliases, and
/// never binds one candidate to two roles.
pub proof fn law_guess_binds_matching_candidates(p: Protocol, cands: Seq<VariableRefView>)
    ensures
        ({
            let roles = roles_spec(p);
            let b = guess_spec(p, cands);
            let ch = guess_choices(p, cands);
            &&& b.len() == roles.len()
            &&& ch.len() == roles.len()
            &&& forall|i: int|
                0 <= i < roles.len() && (#[trigger] b[i]) is Some ==> {
                    &&& 0 <= ch[i] < cands.len()
                    &&& cands[ch[i]] == b[i]->0
                    &&& exists|a: &'static str| roles[i].aliases.contains(a) && name_matches(cands[ch[i]], a)
                }
            &&& forall|i: int, j: int|
                0 <= i < roles.len() && 0 <= j < roles.len() && i != j && (#[trigger] b[i]) is Some && (
                #[trigger] b[j]) is Some ==> ch[i] != ch[j]
        }),
{
    broadcast use vstd::seq_lib::group_to_multiset_ensures;

    let roles = roles_spec(p);
    let pairs = alias_pairs(roles);
    let sorted = sort_longest_first(pairs);
    lemma_alias_pairs_valid(roles);
    lemma_sort_longest_members(pairs);
    assert forall|i: int| 0 <= i < sorted.len() implies (#[trigger] sorted[i]).0 < roles.len()
        && roles[sorted[i].0 as int].aliases.contains(sorted[i].1) by {
        assert(sorted.to_multiset().count(sorted[i]) > 0);
        assert(pairs.contains(sorted[i]));
        let j = choose|j: int| 0 <= j < pairs.len() && pairs[j] == sorted[i];
        assert(pairs[j] == sorted[i]);
    }
    lemma_guess_run_sound(roles, cands, sorted);
}

/// Each processed pair's role is bound, or every candidate matching its alias
/// is taken.
pub open spec fn pairs_exhausted(
    cands: Seq<VariableRefView>,
    st: GuessState,
    pairs: Seq<(usize, &'static str)>,
) -> bool {
    forall|k: int|
        0 <= k < pairs.len() ==> (st.signals[(#[trigger] pairs[k]).0 as int] is Some || forall|c: int|
            0 <= c < cands.len() && name_matches(cands[c], pairs[k].1) ==> #[trigger] st.taken[c])
}

/// Every taken candidate is the chosen one of some bound role.
pub open spec fn taken_by_bound(n_roles: nat, cands: Seq<VariableRefView>, st: GuessState) -> bool {
    forall|c: int|
        0 <= c < cands.len() && #[trigger] st.taken[c] ==> exists|j: int|
            0 <= j < n_roles && st.signals[j] is Some && st.chosen[j] == c
}

proof fn lemma_guess_run_complete(
    n_roles: nat,
    cands: Seq<VariableRefView>,
    pairs: Seq<(usize, &'static str)>,
)
    requires
        forall|i: int| 0 <= i < pairs.len() ==> (#[trigger] pairs[i]).0 < n_roles,
    ensures
        ({
            let st = guess_run(cands, n_roles, pairs);
            &&& st.signals.len() == n_roles
            &&& st.taken.len() == cands.len()
            &&& st.chosen.len() == n_roles
            &&& pairs_exhausted(cands, st, pairs)
            &&& taken_by_bound(n_roles, cands, st)
        }),
    decreases pairs.len(),
{
    let st = guess_run(cands, n_roles, pairs);
    if pairs.len() == 0 {
        assert forall|c: int| 0 <= c < cands.len() && #[trigger] st.taken[c] implies exists|j: int|
            0 <= j < n_roles && st.signals[j] is Some && st.chosen[j] == c by {}
    } else {
        let d = pairs.drop_last();
        assert forall|i: int| 0 <= i < d.len() implies (#[trigger] d[i]).0 < n_roles by {
            assert(d[i] == pairs[i]);
        }
        lemma_guess_run_complete(n_roles, cands, d);
        let prev = guess_run(cands, n_roles, d);
        let pr = pairs.last();
        assert(pr == pairs[pairs.len() - 1]);
        let (ri, alias) = pr;
        assert(st == guess_step(cands, prev, pr));
        lemma_first_free_match(cands, prev.taken, alias, 0);
        // Bindings and taken marks only accumulate.
        assert forall|j: int| 0 <= j < n_roles && prev.signals[j] is Some implies st.signals[j] is Some
            && st.chosen[j] == prev.chosen[j] by {}
        assert forall|c: int| 0 <= c < cands.len() && prev.taken[c] implies st.taken[c] by {}
        assert forall|k: int| 0 <= k < pairs.len() implies (st.signals[(#[trigger] pairs[k]).0 as int] is Some
            || forall|c: int| 0 <= c < cands.len() && name_matches(cands[c], pairs[k].1) ==> #[trigger] st.taken[c]) by {
            if k < d.len() {
                assert(pairs[k] == d[k]);
                if !(prev.signals[d[k].0 as int] is Some) {
                    assert forall|c: int| 0 <= c < cands.len() && name_matches(cands[c], pairs[k].1) implies #[trigger] st.taken[c] by {
                        assert(prev.taken[c]);
                    }
                }
            } else {
                assert(k == pairs.len() - 1);
                if !(st.signals[ri as int] is Some) {
                    assert(first_free_match(cands, prev.taken, alias, 0) is None);
                    assert(st == prev);
                }
            }
        }
        assert forall|c: int| 0 <= c < cands.len() && #[trigger] st.taken[c] implies exists|j: int|
            0 <= j < n_roles && st.signals[j] is Some && st.chosen[j] == c by {
            if prev.taken[c] {
                let j = choose|j: int| 0 <= j < n_roles && prev.signals[j] is Some && prev.chosen[j] == c;
                assert(st.signals[j] is Some && st.chosen[j] == c);
            } else {
                assert(st != prev);
                assert(st.signals[ri as int] is Some && st.chosen[ri as int] == c);
            }
        }
    }
}

/// Each alias of each role appears among the pairs.
proof fn lemma_alias_pairs_complete(roles: Seq<RoleView>)
    requires
        roles.len() <= usize::MAX,
    ensures
        forall|i: int, k: int|
            0 <= i < roles.len() && 0 <= k < roles[i].aliases.len() ==> alias_pairs(roles).contains(
                (i as usize, #[trigger] roles[i].aliases[k]),
            ),
    decreases roles.len(),
{
    if roles.len() > 0 {
        let d = roles.drop_last();
        lemma_alias_pairs_complete(d);
        let a = alias_pairs(d);
        let last = roles.last();
        let b = last.aliases.map_values(|x: &'static str| ((roles.len() - 1) as usize, x));
        let all = alias_pairs(roles);
        assert(all == a + b);
        assert forall|i: int, k: int|
            0 <= i < roles.len() && 0 <= k < roles[i].aliases.len() implies all.contains(
                (i as usize, #[trigger] roles[i].aliases[k]),
            ) by {
            if i < d.len() {
                assert(roles[i] == d[i]);
                assert(a.contains((i as usize, d[i].aliases[k])));
                let m = choose|m: int| 0 <= m < a.len() && a[m] == (i as usize, d[i].aliases[k]);
                assert(all[m] == a[m]);
            } else {
                assert(roles[i] == last);
                assert(all[a.len() + k] == b[k]);
            }
        }
    }
}

/// A role the guess leaves unbound has no free candidate to take: every
/// candidate whose lowercased name contains one of its aliases went to
/// another role.
pub proof fn law_guess_unbound_roles_had_no_free_match(p: Protocol, cands: Seq<VariableRefView>)
    ensures
        ({
            let roles = roles_spec(p);
            let b = guess_spec(p, cands);
            let ch = guess_choices(p, cands);
            forall|i: int, c: int, a: &'static str|
                #![trigger b[i], name_matches(cands[c], a)]
                0 <= i < roles.len() && b[i] is None && 0 <= c < cands.len() && roles[i].aliases.contains(a)
                    && name_matches(cands[c], a) ==> exists|j: int|
                    0 <= j < roles.len() && j != i && b[j] is Some && ch[j] == c
        }),
{
    broadcast use vstd::seq_lib::group_to_multiset_ensures;

    let roles = roles_spec(p);
    let pairs = alias_pairs(roles);
    let sorted = sort_longest_first(pairs);
    lemma_alias_pairs_valid(roles);
    lemma_alias_pairs_complete(roles);
    lemma_sort_longest_members(pairs);
    assert forall|i: int| 0 <= i < sorted.len() implies (#[trigger] sorted[i]).0 < roles.len() by {
        assert(sorted.to_multiset().count(sorted[i]) > 0);
        assert(pairs.contains(sorted[i]));
        let j = choose|j: int| 0 <= j < pairs.len() && pairs[j] == sorted[i];
        assert(pairs[j] == sorted[i]);
    }
    lemma_guess_run_complete(roles.len(), cands, sorted);
    let st = guess_run(cands, roles.len(), sorted);
    assert(guess_spec(p, cands) == st.signals);
    assert(guess_choices(p, cands) == st.chosen);
    assert forall|i: int, c: int, a: &'static str|
        #![trigger st.signals[i], name_matches(cands[c], a)]
        0 <= i < roles.len() && st.signals[i] is None && 0 <= c < cands.len() && roles[i].aliases.contains(a)
            && name_matches(cands[c], a) implies exists|j: int|
            0 <= j < roles.len() && j != i && st.signals[j] is Some && st.chosen[j] == c by {
        let k = choose|k: int| 0 <= k < roles[i].aliases.len() && roles[i].aliases[k] == a;
        assert(pairs.contains((i as usize, roles[i].aliases[k])));
        assert(pairs.to_multiset().count((i as usize, a)) > 0);
        assert(sorted.contains((i as usize, a)));
        let m = choose|m: int| 0 <= m < sorted.len() && sorted[m] == (i as usize, a);
        assert(sorted[m].0 as int == i);
        assert(st.taken[c]);
        let j = choose|j: int| 0 <= j < roles.len() && st.signals[j] is Some && st.chosen[j] == c;
    }
}

fn longest_first(pairs: &Vec<(usize, &'static str)>) -> (out: Vec<(usize, &'static str)>)
    ensures
        out@ == sort_longest_first(pairs@),
        forall|k: int| 0 <= k < out@.len() ==> exists|j: int| 0 <= j < pairs@.len() && #[trigger] out@[k] == pairs@[j],
{
    let mut out: Vec<(usize, &'static str)> = Vec::new();
    let mut i: usize = 0;
    while i < pairs.len()
        invariant
            i <= pairs@.len(),
            out@ == sort_longest_first(pairs@.take(i as int)),
            forall|k: int| 0 <= k < out@.len() ==> exists|j: int| 0 <= j < pairs@.len() && #[trigger] out@[k] == pairs@[j],
        decreases pairs@.len() - i,
    {
        let e = pairs[i];
        let mut k = out.len();
        while k > 0 && out[k - 1].1.len() < e.1.len()
            invariant
                k <= out@.len(),
                forall|m: int| k <= m < out@.len() ==> alias_len(out@[m].1) < alias_len(e.1),
            decreases k,
        {
            k = k - 1;
        }
        proof {
            assert(pairs@.take(i + 1).drop_last() =~= pairs@.take(i as int));
            lemma_insert_longest_at(out@, e, k as int);
        }
        let ghost before = out@;
        out.insert(k, e);
        proof {
            assert(out@ =~= before.take(k as int).push(e) + before.skip(k as int));
            assert forall|m: int| 0 <= m < out@.len() implies exists|j: int| 0 <= j < pairs@.len() && #[trigger] out@[m] == pairs@[j] by {
                if m < k {
                    assert(out@[m] == before[m]);
                } else if m == k {
                    assert(out@[m] == pairs@[i as int]);
                } else {
                    assert(out@[m] == before[m - 1]);
                }
            }
        }
        i = i + 1;
    }
    assert(pairs@.take(pairs@.len() as int) =~= pairs@);
    out
}

pub open spec fn cands_view(cands: Seq<VariableRef>) -> Seq<VariableRefView> {
    cands.map_values(|c: VariableRef| c@)
}

impl RoleBindings {
    /// Bind roles by matching each role's aliases against the signal names in
    /// `candidates`, longest alias first so that `sclk` wins over `clk`.
    #[must_use]
    pub fn guess(protocol: Protocol, candidates: &[VariableRef]) -> (r: Self)
        ensures
            r@ == guess_spec(protocol, cands_view(candidates@)),
    {
        let ghost cv = cands_view(candidates@);
        let roles = protocol.roles();
        let ghost rv = roles_spec(protocol);
        let mut signals: Vec<Option<VariableRef>> = Vec::new();
        let mut n: usize = 0;
        while n < roles.len()
            invariant
                n <= roles@.len(),
                signals@.len() == n,
                forall|k: int| 0 <= k < n ==> #[trigger] signals@[k] is None,
            decreases roles@.len() - n,
        {
            signals.push(None);
            n = n + 1;
        }
        let mut taken: Vec<bool> = Vec::new();
        let mut m: usize = 0;
        while m < candidates.len()
            invariant
                m <= candidates@.len(),
                taken@.len() == m,
                forall|k: int| 0 <= k < m ==> !#[trigger] taken@[k],
            decreases candidates@.len() - m,
        {
            taken.push(false);
            m = m + 1;
        }

        // Longer aliases are more specific, so let them claim signals first.
        let mut pairs: Vec<(usize, &'static str)> = Vec::new();
        let mut ri: usize = 0;
        proof {
            assert(roles_view(roles@).take(0) =~= Seq::<RoleView>::empty());
        }
        while ri < roles.len()
            invariant
                ri <= roles@.len(),
                roles_view(roles@) == rv,
                pairs@ == alias_pairs(rv.take(ri as int)),
            decreases roles@.len() - ri,
        {
            let ghost before = pairs@;
            let mut ai: usize = 0;
            while ai < roles[ri].aliases.len()
                invariant
                    ri < roles@.len(),
                    ai <= roles@[ri as int].aliases@.len(),
                    pairs@ == before + roles@[ri as int].aliases@.take(ai as int).map_values(
                        |a: &'static str| (ri, a),
                    ),
                decreases roles@[ri as int].aliases@.len() - ai,
            {
                pairs.push((ri, roles[ri].aliases[ai]));
                ai = ai + 1;
                assert(pairs@ =~= before + roles@[ri as int].aliases@.take(ai as int).map_values(
                    |a: &'static str| (ri, a),
                ));
            }
            proof {
                let al = roles@[ri as int].aliases@;
                assert(al.take(al.len() as int) =~= al);
                assert(rv.take(ri + 1).drop_last() =~= rv.take(ri as int));
                assert(rv[ri as int] == roles@[ri as int]@);
                assert(pairs@ =~= alias_pairs(rv.take(ri + 1)));
            }
            ri = ri + 1;
        }
        proof {
            assert(rv.take(rv.len() as int) =~= rv);
            lemma_alias_pairs_in_range(rv);
        }
        let by_alias = longest_first(&pairs);
        let ghost ps = by_alias@;
        proof {
            assert(Seq::new(rv.len(), |i: int| None::<VariableRefView>) =~= signals@.map_values(
                |o: Option<VariableRef>| opt_view(o),
            ));
            assert(Seq::new(cv.len(), |i: int| false) =~= taken@);
            assert(ps.take(0) =~= Seq::<(usize, &'static str)>::empty());
        }

        let mut pi: usize = 0;
        while pi < by_alias.len()
            invariant
                ps == by_alias@,
                ps == sort_longest_first(alias_pairs(rv)),
                forall|k: int| 0 <= k < ps.len() ==> (#[trigger] ps[k]).0 < rv.len(),
                signals@.len() == rv.len(),
                taken@.len() == cv.len(),
                cv == cands_view(candidates@),
                pi <= ps.len(),
                ({
                    let st = guess_run(cv, rv.len(), ps.take(pi as int));
                    &&& st.signals == signals@.map_values(|o: Option<VariableRef>| opt_view(o))
                    &&& st.taken == taken@
                }),
            decreases ps.len() - pi,
        {
            let (role_idx, alias) = by_alias[pi];
            proof {
                assert(ps.take(pi + 1).drop_last() =~= ps.take(pi as int));
                assert(ps.take(pi + 1).last() == ps[pi as int]);
                assert(role_idx < rv.len());
                assert(signals@.map_values(|o: Option<VariableRef>| opt_view(o))[role_idx as int] == opt_view(
                    signals@[role_idx as int],
                ));
            }
            let ghost st0 = guess_run(cv, rv.len(), ps.take(pi as int));
            if signals[role_idx].is_none() {
                let alias_chars = chars_of(alias);
                let mut ci: usize = 0;
                let ghost sig0 = signals@;
                let ghost tk0 = taken@;
                let mut found = false;
                while ci < candidates.len()
                    invariant_except_break
                        !found,
                    invariant
                        cv == cands_view(candidates@),
                        cv.len() == candidates@.len(),
                        ci <= cv.len(),
                        taken@.len() == cv.len(),
                        signals@.len() == rv.len(),
                        sig0.len() == rv.len(),
                        role_idx < rv.len(),
                        tk0.len() == cv.len(),
                        alias_chars@ == alias@,
                        !found ==> signals@ == sig0,
                        !found ==> taken@ == tk0,
                        !found ==> first_free_match(cv, tk0, alias, 0) == first_free_match(cv, tk0, alias, ci as int),
                        found ==> ({
                            let c = first_free_match(cv, tk0, alias, 0);
                            &&& c is Some
                            &&& signals@.map_values(|o: Option<VariableRef>| opt_view(o)) == sig0.map_values(
                                |o: Option<VariableRef>| opt_view(o),
                            ).update(role_idx as int, Some(cv[c->0]))
                            &&& taken@ == tk0.update(c->0, true)
                        }),
                    ensures
                        !found ==> ci == cv.len(),
                        !found ==> first_free_match(cv, tk0, alias, 0) == first_free_match(cv, tk0, alias, ci as int),
                        !found ==> signals@ == sig0,
                        !found ==> taken@ == tk0,
                        found ==> ({
                            let c = first_free_match(cv, tk0, alias, 0);
                            &&& c is Some
                            &&& signals@.map_values(|o: Option<VariableRef>| opt_view(o)) == sig0.map_values(
                                |o: Option<VariableRef>| opt_view(o),
                            ).update(role_idx as int, Some(cv[c->0]))
                            &&& taken@ == tk0.update(c->0, true)
                        }),
                    decreases cv.len() - ci,
                {
                    let free = !taken[ci];
                    if free {
                        let lower = ascii_lowercase_chars(candidates[ci].name.as_str());
                        if contains_chars(&lower, &alias_chars) {
                            assert(cv[ci as int] == candidates@[ci as int]@);
                            assert(!tk0[ci as int]);
                            assert(lower@ == ascii_lower(cv[ci as int].name));
                            assert(name_matches(cv[ci as int], alias));
                            assert(first_free_match(cv, tk0, alias, ci as int) == Some(ci as int));
                            let chosen = candidates[ci].clone();
                            let ghost chosen_view = chosen@;
                            assert(chosen_view == cv[ci as int]);
                            signals.set(role_idx, Some(chosen));
                            taken.set(ci, true);
                            proof {
                                assert(signals@ == sig0.update(role_idx as int, Some(chosen)));
                                assert(opt_view(Some(chosen)) == Some(cv[ci as int]));
                                assert(signals@.map_values(|o: Option<VariableRef>| opt_view(o)) =~= sig0.map_values(
                                    |o: Option<VariableRef>| opt_view(o),
                                ).update(role_idx as int, Some(cv[ci as int])));
                                assert(taken@ =~= tk0.update(ci as int, true));
                            }
                            found = true;
                            break;
                        }
                        assert(cv[ci as int] == candidates@[ci as int]@);
                    }
                    ci = ci + 1;
                }
                proof {
                    if !found {
                        assert(first_free_match(cv, tk0, alias, 0) is None);
                    }
                }
            }
            proof {
                let st1 = guess_run(cv, rv.len(), ps.take(pi + 1));
                assert(st1 == guess_step(cv, st0, ps[pi as int]));
                assert(st1.signals =~= signals@.map_values(|o: Option<VariableRef>| opt_view(o)));
                assert(st1.taken =~= taken@);
            }
            pi = pi + 1;
        }
        proof {
            assert(ps.take(ps.len() as int) =~= ps);
        }
        RoleBindings { signals }
    }


    /// Whether both bind the same signals to the same roles.
    pub fn same_as(&self, other: &RoleBindings) -> (r: bool)
        ensures
            r == (self@ == other@),
    {
        if self.signals.len() != other.signals.len() {
            assert(self@.len() != other@.len());
            return false;
        }
        let mut i: usize = 0;
        while i < self.signals.len()
            invariant
                self.signals@.len() == other.signals@.len(),
                i <= self.signals@.len(),
                forall|k: int| 0 <= k < i ==> #[trigger] self@[k] == other@[k],
            decreases self.signals@.len() - i,
        {
            let same = match (&self.signals[i], &other.signals[i]) {
                (Some(a), Some(b)) => a.same_as(b),
                (None, None) => true,
                _ => false,
            };
            assert(self@[i as int] == opt_view(self.signals@[i as int]));
            assert(other@[i as int] == opt_view(other.signals@[i as int]));
            if !same {
                return false;
            }
            i = i + 1;
        }
        assert(self@ =~= other@);
        true
    }

    /// The signal bound to role `idx`, if any.
    #[must_use]
    pub fn get(&self, idx: usize) -> (r: Option<&VariableRef>)
        ensures
            r is Some <==> (idx < self@.len() && self@[idx as int] is Some),
            r matches Some(v) ==> Some(v@) == self@[idx as int],
    {
        if idx < self.signals.len() {
            match &self.signals[idx] {
                Some(v) => Some(v),
                None => None,
            }
        } else {
            None
        }
    }

    /// Roles that are required but unbound, by name.
    #[must_use]
    pub fn missing(&self, protocol: Protocol) -> (r: Vec<&'static str>)
        ensures
            r@ == missing_spec(roles_spec(protocol), self@),
    {
        let roles = protocol.roles();
        let ghost rv = roles_spec(protocol);
        let mut out: Vec<&'static str> = Vec::new();
        let mut i: usize = 0;
        assert(rv.take(0) =~= Seq::<RoleView>::empty());
        while i < roles.len()
            invariant
                roles_view(roles@) == rv,
                i <= rv.len(),
                out@ == missing_spec(rv.take(i as int), self@),
            decreases rv.len() - i,
        {
            proof {
                assert(rv.take(i + 1).drop_last() =~= rv.take(i as int));
                assert(rv[i as int] == roles@[i as int]@);
            }
            if roles[i].required && self.get(i).is_none() {
                out.push(roles[i].name);
            }
            i = i + 1;
        }
        assert(rv.take(rv.len() as int) =~= rv);
        out
    }

    /// Grow or shrink to match the role count of `protocol`, keeping bindings
    /// that still have a role.
    pub fn fit_to(&mut self, protocol: Protocol)
        ensures
            final(self)@.len() == roles_spec(protocol).len(),
            forall|i: int|
                0 <= i < final(self)@.len() ==> #[trigger] final(self)@[i] == (if i < old(self)@.len() {
                    old(self)@[i]
                } else {
                    None
                }),
    {
        let n = protocol.roles().len();
        let ghost old_view = self@;
        if self.signals.len() > n {
            self.signals.truncate(n);
        } else {
            while self.signals.len() < n
                invariant
                    self@.len() <= n,
                    self@.len() >= old_view.len(),
                    forall|i: int|
                        0 <= i < self@.len() ==> #[trigger] self@[i] == (if i < old_view.len() {
                            old_view[i]
                        } else {
                            None
                        }),
                    old_view.len() <= n,
                decreases n - self@.len(),
            {
                let ghost before = self.signals@;
                let ghost prev_view = self@;
                self.signals.push(None);
                assert forall|i: int| 0 <= i < self@.len() implies #[trigger] self@[i] == (if i < old_view.len() {
                    old_view[i]
                } else {
                    None
                }) by {
                    if i < before.len() {
                        assert(self.signals@[i] == before[i]);
                        assert(self@[i] == opt_view(self.signals@[i]));
                        assert(prev_view[i] == opt_view(before[i]));
                    } else {
                        assert(self.signals@[i] == None::<VariableRef>);
                        assert(self@[i] == opt_view(self.signals@[i]));
                    }
                }
            }
        }
    }
}

} // verus!
