//! Which host runs which component, and under which address a component is
//! reached.

use crate::factory_scenario_common_updates::{next_number, seeded_generator, SEED};
use crate::order::Value;
use crate::ordered::{entries_map, OrderedMap};
use crate::text::{decimal, number_text};
use vstd::prelude::*;
use vstd::string::StringExecFns;

verus! {

/// As many hands as there are hosts, each empty.
pub open spec fn empty_hands(nodes: nat) -> Seq<Seq<Seq<char>>> {
    Seq::new(nodes, |k: int| Seq::<Seq<char>>::empty())
}

/// The names dealt out to the hosts in turn, from the `t`th turn on: at
/// each turn a number chooses, among the names that are left, the one that
/// the host of the turn gets.
pub open spec fn dealt(
    names: Seq<Seq<char>>,
    draws: Seq<u64>,
    t: int,
    hands: Seq<Seq<Seq<char>>>,
) -> Seq<Seq<Seq<char>>>
    decreases names.len(),
{
    if names.len() == 0 || hands.len() == 0 {
        hands
    } else {
        let i = draws[t] as int % names.len() as int;
        let k = t % hands.len() as int;
        dealt(names.remove(i), draws, t + 1, hands.update(k, hands[k].push(names[i])))
    }
}

fn hands_for(nodes: u32) -> (r: Vec<Vec<String>>)
    ensures
        r.deep_view() == empty_hands(nodes as nat),
{
    let mut hands: Vec<Vec<String>> = Vec::new();
    let mut k: u32 = 0;
    while k < nodes
        invariant
            k <= nodes,
            hands.deep_view() =~= empty_hands(k as nat),
        decreases nodes - k,
    {
        let hand: Vec<String> = Vec::new();
        assert(hand.deep_view() =~= Seq::<Seq<char>>::empty());
        let ghost before = hands.deep_view();
        hands.push(hand);
        assert(hands.deep_view() =~= before.push(Seq::<Seq<char>>::empty()));
        k += 1;
    }
    hands
}

/// Deals the names out to the hosts in turn; the numbers choose, turn by
/// turn, among the names that are left.
pub fn create_assignment_with(query_names: Vec<String>, nodes: u32, draws: &Vec<u64>) -> (r: Vec<
    Vec<String>,
>)
    requires
        nodes > 0,
        draws.len() >= query_names.len(),
    ensures
        r.deep_view() == dealt(query_names.deep_view(), draws@, 0, empty_hands(nodes as nat)),
{
    let mut names = query_names;
    let mut hands = hands_for(nodes);
    let ghost all = names.deep_view();
    let ghost first = hands.deep_view();
    let total = names.len();
    let mut t: usize = 0;
    while names.len() > 0
        invariant
            nodes > 0,
            hands.deep_view().len() == nodes,
            t + names.len() == total,
            total <= draws.len(),
            dealt(all, draws@, 0, first) == dealt(names.deep_view(), draws@, t as int, hands.deep_view()),
        decreases names.len(),
    {
        let ghost ns = names.deep_view();
        let ghost hs = hands.deep_view();
        let left: u64 = names.len() as u64;
        let i = (draws[t] % left) as usize;
        let k = t % (nodes as usize);
        let name = names.remove(i);
        assert(names.deep_view() =~= ns.remove(i as int));
        assert(name.deep_view() == ns[i as int]);
        let mut hand = hands.remove(k);
        let ghost hv = hand.deep_view();
        assert(hv == hs[k as int]);
        hand.push(name);
        assert(hand.deep_view() =~= hv.push(ns[i as int]));
        hands.insert(k, hand);
        assert(hands.deep_view() =~= hs.update(k as int, hs[k as int].push(ns[i as int])));
        t += 1;
    }
    hands
}

/// Whether the hands are some dealing of the names to the hosts.
pub open spec fn is_dealing(hands: Seq<Seq<Seq<char>>>, names: Seq<Seq<char>>, nodes: nat) -> bool {
    exists|draws: Seq<u64>| #[trigger] dealt(names, draws, 0, empty_hands(nodes)) == hands
}

/// Deals the names out to the hosts in turn, at random.
pub fn create_assignment(query_names: Vec<String>, nodes: u32) -> (r: Vec<Vec<String>>)
    requires
        nodes > 0,
    ensures
        is_dealing(r.deep_view(), query_names.deep_view(), nodes as nat),
{
    let mut generator = seeded_generator(SEED);
    let mut draws: Vec<u64> = Vec::new();
    while draws.len() < query_names.len()
        invariant
            draws.len() <= query_names.len(),
        decreases query_names.len() - draws.len(),
    {
        draws.push(next_number(&mut generator));
    }
    create_assignment_with(query_names, nodes, &draws)
}

/// The address of the `i`th component of a host.
pub open spec fn url_of(host: nat, i: nat) -> Seq<char> {
    "http://mbei-component-"@ + decimal(host)
        + ".mbei-component.mbei.svc.cluster.local:"@ + decimal(10000 + i)
}

/// The names of the first `n` components of a host, each with its address.
pub open spec fn urls_of_host(names: Seq<Seq<char>>, host: nat, n: int) -> Seq<
    (Seq<char>, Seq<char>),
> {
    Seq::new(n as nat, |i: int| (names[i], url_of(host, i as nat)))
}

/// The names of the components of the first `n` hosts, each with its
/// address, host by host.
pub open spec fn urls_of_hosts(hands: Seq<Seq<Seq<char>>>, n: int) -> Seq<(Seq<char>, Seq<char>)>
    decreases n,
{
    if n <= 0 {
        Seq::empty()
    } else {
        urls_of_hosts(hands, n - 1) + urls_of_host(hands[n - 1], (n - 1) as nat, hands[n - 1].len() as int)
    }
}

fn url(host: u64, i: u64) -> (r: String)
    requires
        i <= u64::MAX - 10000,
    ensures
        r@ == url_of(host as nat, i as nat),
{
    let mut s = "http://mbei-component-".to_owned();
    s.append(number_text(host).as_str());
    s.append(".mbei-component.mbei.svc.cluster.local:");
    s.append(number_text(10000 + i).as_str());
    s
}

/// The address of each component: the components of a host listen on
/// successive ports. Of two components with one name the later one counts.
pub fn create_names_url_map(assignment: &Vec<Vec<String>>) -> (r: OrderedMap<String, String>)
    requires
        forall|k: int|
            0 <= k < assignment.len() ==> (#[trigger] assignment[k]).len() <= u64::MAX - 10000,
    ensures
        r.map() == entries_map(urls_of_hosts(assignment.deep_view(), assignment.len() as int)),
{
    let ghost hands = assignment.deep_view();
    let mut list: Vec<(String, String)> = Vec::new();
    let mut k: usize = 0;
    assert(list.deep_view() =~= urls_of_hosts(hands, 0));
    while k < assignment.len()
        invariant
            k <= assignment.len(),
            hands == assignment.deep_view(),
            list.deep_view() == urls_of_hosts(hands, k as int),
            forall|k: int|
                0 <= k < assignment.len() ==> (#[trigger] assignment[k]).len() <= u64::MAX - 10000,
        decreases assignment.len() - k,
    {
        let names = &assignment[k];
        let ghost before = list.deep_view();
        let ghost ns = names.deep_view();
        assert(ns == hands[k as int]);
        let mut i: usize = 0;
        assert(list.deep_view() =~= before + urls_of_host(ns, k as nat, 0));
        while i < names.len()
            invariant
                i <= names.len(),
                names.len() <= u64::MAX - 10000,
                ns == names.deep_view(),
                list.deep_view() == before + urls_of_host(ns, k as nat, i as int),
            decreases names.len() - i,
        {
            let ghost prior = list.deep_view();
            let entry = (names[i].dup(), url(k as u64, i as u64));
            let ghost ev = entry.deep_view();
            list.push(entry);
            assert(list.deep_view() =~= prior.push(ev));
            assert(prior.push(ev) =~= before + urls_of_host(ns, k as nat, i + 1));
            i += 1;
        }
        k += 1;
    }
    OrderedMap::from_vec(list)
}

} // verus!
