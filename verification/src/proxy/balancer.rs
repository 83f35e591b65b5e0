//! Spreads the data centres over the Cloudflare domains.

use std::collections::HashMap;

use vstd::prelude::*;

use crate::proxy::random::{choose_text, shuffle_texts};
use crate::proxy::text;
use crate::proxy::text::{chars_of, copy_texts, push_new, same_text, split_chars, text_of, trimmed};

verus! {

/// The data centres that get a domain.
pub const BALANCED_DCS: [u32; 6] = [1, 2, 3, 4, 5, 203];

/// What a balancer knows: the domains, and the domain that each data centre uses now.
pub struct BalancerState {
    pub domains: Seq<Seq<char>>,
    pub current: Map<u32, Seq<char>>,
}

/// The domain of each data centre, if the first `n` of `BALANCED_DCS` get what was chosen for
/// them.
pub open spec fn assigned(chosen: Seq<Option<String>>, n: nat) -> Map<u32, Seq<char>>
    decreases n,
{
    if n == 0 {
        Map::empty()
    } else {
        let before = assigned(chosen, (n - 1) as nat);
        match chosen[n - 1] {
            Some(domain) => before.insert(BALANCED_DCS@[n - 1], domain@),
            None => before,
        }
    }
}

impl BalancerState {
    /// The domains to try for a data centre, if the domains were shuffled to `shuffled`: the one
    /// that it uses now, then the others.
    pub open spec fn order(self, dc_id: u32, shuffled: Seq<Seq<char>>) -> Seq<Seq<char>> {
        text::with_new(
            if self.current.contains_key(dc_id) {
                seq![self.current[dc_id]]
            } else {
                Seq::empty()
            },
            shuffled,
        )
    }
}

/// The domains, and the domain that each data centre uses now.
#[derive(Debug)]
pub struct Balancer {
    domains: Vec<String>,
    dc_to_domain: HashMap<u32, String>,
}

impl View for Balancer {
    type V = BalancerState;

    closed spec fn view(&self) -> BalancerState {
        BalancerState {
            domains: text::text_views(self.domains@),
            current: text::text_map(self.dc_to_domain@),
        }
    }
}

impl Default for Balancer {
    fn default() -> (balancer: Self)
        ensures
            balancer@.domains == Seq::<Seq<char>>::empty(),
            balancer@.current == Map::<u32, Seq<char>>::empty(),
    {
        Balancer::new()
    }
}

impl Balancer {
    /// A balancer without domains.
    pub fn new() -> (balancer: Self)
        ensures
            balancer@.domains == Seq::<Seq<char>>::empty(),
            balancer@.current == Map::<u32, Seq<char>>::empty(),
    {
        let balancer = Balancer { domains: Vec::new(), dc_to_domain: HashMap::new() };
        assert(balancer@.domains =~= Seq::<Seq<char>>::empty());
        assert(balancer@.current =~= Map::<u32, Seq<char>>::empty());
        balancer
    }

    /// Replaces the domains, and gives each data centre of `BALANCED_DCS` what was chosen for it.
    pub fn assign_domains(&mut self, domains: &[String], chosen: &Vec<Option<String>>)
        requires
            chosen@.len() == 6,
        ensures
            final(self)@.domains == text::text_views(domains@),
            final(self)@.current == assigned(chosen@, 6),
    {
        self.domains = copy_texts(domains);
        self.dc_to_domain.clear();
        assert(text::text_map(self.dc_to_domain@) =~= Map::<u32, Seq<char>>::empty());
        let mut i: usize = 0;
        while i < 6
            invariant
                i <= 6,
                chosen@.len() == 6,
                text::text_views(self.domains@) == text::text_views(domains@),
                text::text_map(self.dc_to_domain@) == assigned(chosen@, i as nat),
            decreases 6 - i,
        {
            let ghost before = self.dc_to_domain@;
            match &chosen[i] {
                Some(domain) => {
                    let copy = domain.clone();
                    self.dc_to_domain.insert(BALANCED_DCS[i], copy);
                    assert(text::text_map(self.dc_to_domain@) =~= text::text_map(before).insert(
                        BALANCED_DCS@[i as int],
                        domain@,
                    ));
                },
                None => {},
            }
            i = i + 1;
        }
    }

    /// Replaces the domains, and gives each data centre of `BALANCED_DCS` a random one of them.
    pub fn update_domains_list(&mut self, domains: &[String])
        ensures
            final(self)@.domains == text::text_views(domains@),
            forall|dc: u32| #[trigger]
                final(self)@.current.contains_key(dc) <==> domains@.len() > 0
                    && BALANCED_DCS@.contains(dc),
            forall|dc: u32| #[trigger]
                final(self)@.current.contains_key(dc) ==> text::text_views(domains@).contains(
                    final(self)@.current[dc],
                ),
    {
        let list = copy_texts(domains);
        let ghost views = text::text_views(domains@);
        assert(list@.len() == views.len());
        let mut chosen: Vec<Option<String>> = Vec::new();
        while chosen.len() < 6
            invariant
                chosen@.len() <= 6,
                text::text_views(list@) == views,
                list@.len() == views.len(),
                forall|i: int|
                    0 <= i < chosen@.len() ==> ((#[trigger] chosen@[i]) is Some <==> views.len()
                        > 0),
                forall|i: int|
                    0 <= i < chosen@.len() ==> (#[trigger] chosen@[i] matches Some(d)
                        ==> views.contains(d@)),
            decreases 6 - chosen@.len(),
        {
            let one = choose_text(&list);
            proof {
                if one is Some {
                    let i = choose|i: int| 0 <= i < list@.len() && one->0@ == #[trigger] list@[i]@;
                    assert(views[i] == one->0@);
                }
            }
            chosen.push(one);
        }
        self.assign_domains(domains, &chosen);
        proof {
            reveal_with_fuel(assigned, 7);
            let dcs = BALANCED_DCS@;
            assert(dcs[0] == 1 && dcs[1] == 2 && dcs[2] == 3 && dcs[3] == 4 && dcs[4] == 5
                && dcs[5] == 203);
            assert forall|i: int| 0 <= i < 6 implies (#[trigger] chosen@[i] is Some <==> views.len()
                > 0) by {}
            assert forall|dc: u32| BALANCED_DCS@.contains(dc) <==> (dc == 1 || dc == 2 || dc == 3
                || dc == 4 || dc == 5 || dc == 203) by {
                if dc == 1 || dc == 2 || dc == 3 || dc == 4 || dc == 5 {
                    assert(dcs[dc - 1] == dc);
                }
            }
        }
    }

    /// Takes a new text with one domain in each line, none if it could not be had. Gives whether
    /// it names any domain: only then the domains are replaced.
    pub fn refresh(&mut self, content: Option<&str>) -> (changed: bool)
        ensures
            ({
                let listed = match content {
                    Some(c) => listed_domains(text::pieces(c@, seq!['\n'])),
                    None => Seq::empty(),
                };
                &&& changed == (listed.len() > 0)
                &&& !changed ==> *final(self) == *old(self)
                &&& changed ==> {
                    &&& final(self)@.domains == listed
                    &&& forall|dc: u32| #[trigger]
                        final(self)@.current.contains_key(dc) <==> BALANCED_DCS@.contains(dc)
                    &&& forall|dc: u32| #[trigger]
                        final(self)@.current.contains_key(dc) ==> listed.contains(
                            final(self)@.current[dc],
                        )
                }
            }),
    {
        match content {
            None => false,
            Some(c) => {
                let domains = parse_domain_list(c);
                assert(text::text_views(domains@).len() == domains@.len());
                if domains.len() == 0 {
                    return false;
                }
                self.update_domains_list(domains.as_slice());
                true
            },
        }
    }

    /// Makes `domain` the one that a data centre uses. Gives whether it was another one before.
    pub fn update_domain_for_dc(&mut self, dc_id: u32, domain: &str) -> (changed: bool)
        ensures
            changed == !(old(self)@.current.contains_key(dc_id) && old(self)@.current[dc_id]
                == domain@),
            final(self)@.domains == old(self)@.domains,
            final(self)@.current == old(self)@.current.insert(dc_id, domain@),
    {
        let ghost before = self.dc_to_domain@;
        let same: bool = match self.dc_to_domain.get(&dc_id) {
            Some(current) => same_text(current.as_str(), domain),
            None => false,
        };
        if same {
            assert(self@.current =~= old(self)@.current.insert(dc_id, domain@));
            return false;
        }
        self.dc_to_domain.insert(dc_id, domain.to_owned());
        assert(text::text_map(self.dc_to_domain@) =~= text::text_map(before).insert(
            dc_id,
            domain@,
        ));
        true
    }

    /// The domains to try for a data centre, for a given order of the domains.
    pub fn order_domains(&self, dc_id: u32, shuffled: &Vec<String>) -> (out: Vec<String>)
        ensures
            text::text_views(out@) == self@.order(dc_id, text::text_views(shuffled@)),
    {
        let mut out: Vec<String> = Vec::new();
        let ghost first: Seq<Seq<char>> = if self@.current.contains_key(dc_id) {
            seq![self@.current[dc_id]]
        } else {
            Seq::empty()
        };
        if let Some(current) = self.dc_to_domain.get(&dc_id) {
            out.push(current.clone());
        }
        assert(text::text_views(out@) =~= first);
        let ghost all = text::text_views(shuffled@);
        let mut i: usize = 0;
        assert(all.take(0) =~= Seq::<Seq<char>>::empty());
        while i < shuffled.len()
            invariant
                i <= shuffled@.len(),
                all == text::text_views(shuffled@),
                text::text_views(out@) == text::with_new(first, all.take(i as int)),
            decreases shuffled@.len() - i,
        {
            let domain = shuffled[i].clone();
            proof {
                assert(all[i as int] == domain@);
                assert(all.take(i + 1) =~= all.take(i as int).push(domain@));
                text::lemma_with_new_steps(first, all.take(i as int), domain@);
            }
            push_new(&mut out, domain);
            i = i + 1;
        }
        assert(all.take(i as int) =~= all);
        out
    }

    /// The domains to try for a data centre: the one that it uses now, then all others in random
    /// order, each once.
    pub fn get_domains_for_dc(&self, dc_id: u32) -> (out: Vec<String>)
        ensures
            exists|shuffled: Seq<Seq<char>>|
                shuffled.to_multiset() == self@.domains.to_multiset()
                    && text::text_views(out@) == #[trigger] self@.order(dc_id, shuffled),
    {
        let mut shuffled = copy_texts(self.domains.as_slice());
        shuffle_texts(&mut shuffled);
        let out = self.order_domains(dc_id, &shuffled);
        assert(text::text_views(out@) == self@.order(dc_id, text::text_views(shuffled@)));
        out
    }
}

/// In whatever order the domains are shuffled: the list for a data centre starts with the domain
/// that it uses now, holds all domains, and no other, and none of them twice.
pub proof fn law_order_lists_all(state: BalancerState, dc_id: u32, shuffled: Seq<Seq<char>>)
    requires
        shuffled.to_multiset() == state.domains.to_multiset(),
    ensures
        ({
            let order = state.order(dc_id, shuffled);
            let used = state.current.contains_key(dc_id);
            &&& order.no_duplicates()
            &&& used ==> order.len() > 0 && order[0] == state.current[dc_id]
            &&& forall|d: Seq<char>| #[trigger]
                order.contains(d) <==> state.domains.contains(d) || (used && d
                    == state.current[dc_id])
        }),
{
    broadcast use vstd::seq_lib::group_to_multiset_ensures;

    let used = state.current.contains_key(dc_id);
    let first: Seq<Seq<char>> = if used {
        seq![state.current[dc_id]]
    } else {
        Seq::empty()
    };
    text::law_with_new(first, shuffled);
    let order = state.order(dc_id, shuffled);
    if used {
        assert(order.take(1)[0] == order[0]);
    }
    assert forall|d: Seq<char>| #[trigger] order.contains(d) <==> state.domains.contains(d) || (used
        && d == state.current[dc_id]) by {
        assert(shuffled.contains(d) <==> shuffled.to_multiset().count(d) > 0);
        assert(state.domains.contains(d) <==> state.domains.to_multiset().count(d) > 0);
        if used && d == state.current[dc_id] {
            assert(first[0] == d);
        }
    }
}

/// The Cloudflare domains to try: the user's own ones, then the balancer's, each once.
pub open spec fn front_order(user: Seq<Seq<char>>, balanced: Seq<Seq<char>>) -> Seq<Seq<char>> {
    text::with_new(Seq::empty(), user + balanced)
}

/// Puts the user's own Cloudflare domains before the balancer's.
pub fn fronts_for(user: &Vec<String>, balanced: &Vec<String>) -> (out: Vec<String>)
    ensures
        text::text_views(out@) == front_order(
            text::text_views(user@),
            text::text_views(balanced@),
        ),
{
    let ghost all = text::text_views(user@) + text::text_views(balanced@);
    let mut out: Vec<String> = Vec::new();
    let mut i: usize = 0;
    assert(text::text_views(out@) =~= Seq::<Seq<char>>::empty());
    assert(all.take(0) =~= Seq::<Seq<char>>::empty());
    while i < user.len()
        invariant
            i <= user@.len(),
            all == text::text_views(user@) + text::text_views(balanced@),
            text::text_views(out@) == text::with_new(Seq::empty(), all.take(i as int)),
        decreases user@.len() - i,
    {
        let domain = user[i].clone();
        proof {
            assert(all.take(i + 1) =~= all.take(i as int).push(domain@));
            text::lemma_with_new_steps(Seq::empty(), all.take(i as int), domain@);
        }
        push_new(&mut out, domain);
        i = i + 1;
    }
    let mut k: usize = 0;
    while k < balanced.len()
        invariant
            k <= balanced@.len(),
            all == text::text_views(user@) + text::text_views(balanced@),
            text::text_views(out@) == text::with_new(
                Seq::empty(),
                all.take(user@.len() + k),
            ),
        decreases balanced@.len() - k,
    {
        let domain = balanced[k].clone();
        proof {
            let done = all.take(user@.len() + k);
            assert(all.take(user@.len() + k + 1) =~= done.push(domain@));
            text::lemma_with_new_steps(Seq::empty(), done, domain@);
        }
        push_new(&mut out, domain);
        k = k + 1;
    }
    assert(all.take(user@.len() + k) =~= all);
    out
}

/// Every domain of the user and of the balancer is tried, no other, and none twice. The user's
/// own ones, if none of them is there twice, come first and in their order.
pub proof fn law_user_domains_come_first(user: Seq<Seq<char>>, balanced: Seq<Seq<char>>)
    ensures
        front_order(user, balanced).no_duplicates(),
        forall|d: Seq<char>| #[trigger]
            front_order(user, balanced).contains(d) <==> user.contains(d) || balanced.contains(d),
        user.no_duplicates() ==> {
            &&& front_order(user, balanced).len() >= user.len()
            &&& front_order(user, balanced).take(user.len() as int) == user
        },
{
    let all = user + balanced;
    let order = front_order(user, balanced);
    text::law_with_new(Seq::empty(), all);
    assert forall|d: Seq<char>| #[trigger] order.contains(d) <==> user.contains(d)
        || balanced.contains(d) by {
        if user.contains(d) {
            let i = choose|i: int| 0 <= i < user.len() && user[i] == d;
            assert(all[i] == d);
        }
        if balanced.contains(d) {
            let i = choose|i: int| 0 <= i < balanced.len() && balanced[i] == d;
            assert(all[user.len() + i] == d);
        }
        if all.contains(d) {
            let i = choose|i: int| 0 <= i < all.len() && all[i] == d;
            if i < user.len() {
                assert(user[i] == d);
            } else {
                assert(balanced[i - user.len()] == d);
            }
        }
    }
    if user.no_duplicates() {
        text::lemma_with_new_distinct(user);
        text::lemma_with_new_concat(Seq::empty(), user, balanced);
        text::law_with_new(user, balanced);
    }
}

/// The domains of a text with one domain in each line: without blank lines, and without lines
/// that start with `#`.
pub open spec fn listed_domains(lines: Seq<Seq<char>>) -> Seq<Seq<char>>
    decreases lines.len(),
{
    if lines.len() == 0 {
        Seq::empty()
    } else {
        let line = text::trim(lines.last());
        let before = listed_domains(lines.drop_last());
        if line.len() == 0 || line[0] == '#' {
            before
        } else {
            before.push(line)
        }
    }
}

/// Reads a text with one domain in each line.
pub fn parse_domain_list(content: &str) -> (out: Vec<String>)
    ensures
        text::text_views(out@) == listed_domains(text::pieces(content@, seq!['\n'])),
{
    assert(['\n']@ =~= seq!['\n']);
    let lines = split_chars(&chars_of(content), ['\n'].as_slice());
    let ghost all = text::pieces(content@, seq!['\n']);
    let mut out: Vec<String> = Vec::new();
    let mut i: usize = 0;
    assert(text::text_views(out@) =~= listed_domains(all.take(0)));
    while i < lines.len()
        invariant
            i <= lines@.len(),
            text::char_views(lines@) == all,
            text::text_views(out@) == listed_domains(all.take(i as int)),
        decreases lines@.len() - i,
    {
        let ghost before = text::text_views(out@);
        let line = trimmed(&lines[i]);
        proof {
            assert(all[i as int] == lines@[i as int]@);
            assert(all.take(i + 1).drop_last() =~= all.take(i as int));
        }
        if line.len() > 0 && line[0] != '#' {
            out.push(text_of(line));
            assert(text::text_views(out@) =~= before.push(line@));
        }
        i = i + 1;
    }
    assert(all.take(i as int) =~= all);
    out
}

/// Each of the data centres 1 to 5 and 203 gets what was chosen for it, and no other data centre
/// gets anything.
pub proof fn law_assigned_as_chosen(chosen: Seq<Option<String>>, dc: u32)
    requires
        chosen.len() == 6,
    ensures
        ({
            let place: int = if dc == 203 {
                5
            } else {
                dc - 1
            };
            let map = assigned(chosen, 6);
            &&& map.contains_key(dc) <==> (1 <= dc <= 5 || dc == 203) && chosen[place] is Some
            &&& map.contains_key(dc) ==> map[dc] == chosen[place]->0@
        }),
{
    reveal_with_fuel(assigned, 7);
    let dcs = BALANCED_DCS@;
    assert(dcs[0] == 1 && dcs[1] == 2 && dcs[2] == 3 && dcs[3] == 4 && dcs[4] == 5 && dcs[5]
        == 203);
}

/// The list for a data centre goes by the order of the shuffled domains: if none is there twice,
/// it is the domain that the data centre uses now and then the others in that order.
pub proof fn law_order_kept(state: BalancerState, dc_id: u32, shuffled: Seq<Seq<char>>)
    requires
        shuffled.no_duplicates(),
    ensures
        !state.current.contains_key(dc_id) ==> state.order(dc_id, shuffled) == shuffled,
        state.current.contains_key(dc_id) && !shuffled.contains(state.current[dc_id])
            ==> state.order(dc_id, shuffled) == seq![state.current[dc_id]] + shuffled,
{
    if state.current.contains_key(dc_id) {
        let all = seq![state.current[dc_id]] + shuffled;
        if !shuffled.contains(state.current[dc_id]) {
            assert forall|i: int, j: int|
                0 <= i < all.len() && 0 <= j < all.len() && i != j implies all[i] != all[j] by {
                if i > 0 {
                    assert(shuffled.contains(shuffled[i - 1]));
                }
                if j > 0 {
                    assert(shuffled.contains(shuffled[j - 1]));
                }
            }
            let first = seq![state.current[dc_id]];
            text::lemma_with_new_distinct(all);
            text::lemma_with_new_distinct(first);
            text::lemma_with_new_concat(Seq::empty(), first, shuffled);
        }
    } else {
        text::lemma_with_new_distinct(shuffled);
    }
}

/// The Cloudflare domains in the order in which they are tried, if none is there twice: the user's
/// own and then the balancer's, each list in its order.
pub proof fn law_fronts_in_order(user: Seq<Seq<char>>, balanced: Seq<Seq<char>>)
    requires
        (user + balanced).no_duplicates(),
    ensures
        front_order(user, balanced) == user + balanced,
{
    text::lemma_with_new_distinct(user + balanced);
}

/// A text with one domain in each line: a line counts without the white space around it, and not
/// at all if nothing is left of it or it starts with `#`.
pub proof fn law_listed_line_by_line(lines: Seq<Seq<char>>, line: Seq<char>)
    ensures
        listed_domains(Seq::empty()) == Seq::<Seq<char>>::empty(),
        ({
            let domain = text::trim(line);
            listed_domains(lines.push(line)) == if domain.len() > 0 && domain[0] != '#' {
                listed_domains(lines).push(domain)
            } else {
                listed_domains(lines)
            }
        }),
{
    assert(lines.push(line).drop_last() =~= lines);
}

/// Listed domains of two lists of lines, one behind the other.
proof fn lemma_listed_concat(a: Seq<Seq<char>>, b: Seq<Seq<char>>)
    ensures
        listed_domains(a + b) == listed_domains(a) + listed_domains(b),
    decreases b.len(),
{
    if b.len() == 0 {
        assert(a + b =~= a);
        assert(listed_domains(a) + listed_domains(b) =~= listed_domains(a));
    } else {
        lemma_listed_concat(a, b.drop_last());
        assert((a + b).drop_last() =~= a + b.drop_last());
        assert((a + b).last() == b.last());
        assert(listed_domains(a + b) =~= listed_domains(a) + listed_domains(b));
    }
}

/// The lines of a text end at each line feed: what stands before one and what stands behind it are
/// read as two texts.
pub proof fn law_listed_in_lines(a: Seq<char>, b: Seq<char>)
    ensures
        listed_domains(text::pieces(a.push('\n') + b, seq!['\n'])) == listed_domains(
            text::pieces(a, seq!['\n']),
        ) + listed_domains(text::pieces(b, seq!['\n'])),
        !a.contains('\n') ==> listed_domains(text::pieces(a, seq!['\n'])) == ({
            let domain = text::trim(a);
            if domain.len() > 0 && domain[0] != '#' {
                seq![domain]
            } else {
                Seq::empty()
            }
        }),
{
    let stops = seq!['\n'];
    assert(stops[0] == '\n');
    text::law_pieces(a, '\n', b, stops);
    lemma_listed_concat(text::pieces(a, stops), text::pieces(b, stops));
    if !a.contains('\n') {
        assert forall|i: int| 0 <= i < a.len() implies !stops.contains(#[trigger] a[i]) by {
            assert(a.contains(a[i]));
        }
        let none = Seq::<Seq<char>>::empty();
        law_listed_line_by_line(none, a);
        assert(none.push(a) =~= seq![a]);
        assert(none.push(text::trim(a)) =~= seq![text::trim(a)]);
    }
}

} // verus!
