//! The search gateway's logic: splitting a search into terms, grouping them
//! by the instance that hosts their rooms, and describing the rooms found.
use vstd::prelude::*;
use crate::address::{address_text, push_address, Address};
use crate::discovery::Instance;
use crate::text::views_of;
use crate::registry::TermCount;
use crate::text::{chars_of, string_of};

verus! {

/// A room offered to a searcher.
#[derive(Clone, Debug, PartialEq)]
pub struct Chatroom {
    pub chatroom_id: i32,
    pub num_users: u32,
    pub online: bool,
    pub term: String,
    pub url: String,
}

/// The words of `s` from position `i` on, given the words `acc` before and
/// the word `cur` being read: maximal runs of characters other than a space.
pub open spec fn words_from(s: Seq<char>, i: int, acc: Seq<Seq<char>>, cur: Seq<char>) -> Seq<
    Seq<char>,
>
    decreases s.len() - i,
{
    if i >= s.len() {
        if cur.len() > 0 {
            acc.push(cur)
        } else {
            acc
        }
    } else if s[i] == ' ' {
        words_from(s, i + 1, if cur.len() > 0 { acc.push(cur) } else { acc }, Seq::empty())
    } else {
        words_from(s, i + 1, acc, cur.push(s[i]))
    }
}

/// The space-separated terms of a search, empty ones left out.
pub open spec fn words(s: Seq<char>) -> Seq<Seq<char>> {
    words_from(s, 0, Seq::empty(), Seq::empty())
}

/// The terms that discovery placed on the instance at `a`, in order.
pub open spec fn terms_at(terms: Seq<Seq<char>>, answers: Seq<Option<Instance>>, a: Address) -> Seq<
    Seq<char>,
>
    decreases terms.len(),
{
    if terms.len() == 0 || answers.len() != terms.len() {
        Seq::empty()
    } else {
        let rest = terms_at(terms.drop_last(), answers.drop_last(), a);
        match answers.last() {
            Some(inst) => if inst.address == a {
                rest.push(terms.last())
            } else {
                rest
            },
            None => rest,
        }
    }
}

/// The URL of an instance's WebSocket endpoint.
pub open spec fn ws_url(a: Address) -> Seq<char> {
    seq!['w', 's', ':', '/', '/'] + address_text(a) + seq!['/', 'w', 's']
}

/// The terms of a search: its space-separated words, empty ones left out.
pub fn split_terms(search: &str) -> (r: Vec<String>)
    ensures
        views_of(r@) == words(search@),
{
    let s = chars_of(search);
    let mut out: Vec<String> = Vec::new();
    let mut cur: Vec<char> = Vec::new();
    let mut i: usize = 0;
    assert(views_of(out@) =~= Seq::<Seq<char>>::empty());
    assert(cur@ =~= Seq::<char>::empty());
    while i < s.len()
        invariant
            i <= s@.len(),
            s@ == search@,
            words(search@) == words_from(s@, i as int, views_of(out@), cur@),
        decreases s@.len() - i,
    {
        if s[i] == ' ' {
            if cur.len() > 0 {
                let w = string_of(&cur);
                let ghost before = views_of(out@);
                out.push(w);
                assert(views_of(out@) =~= before.push(cur@));
            }
            cur = Vec::new();
        } else {
            cur.push(s[i]);
        }
        i = i + 1;
    }
    if cur.len() > 0 {
        let w = string_of(&cur);
        let ghost before = views_of(out@);
        out.push(w);
        assert(views_of(out@) =~= before.push(cur@));
    }
    out
}

/// Groups the terms by the instance that discovery answered for each
/// (`answers[k]` for `terms[k]`); terms answered with none are left out.
/// Each address appears once, with its terms in search order, and only
/// addresses that some term was answered with appear.
pub fn group_by_address(terms: &Vec<String>, answers: &Vec<Option<Instance>>) -> (r: Vec<(Address, Vec<String>)>)
    requires
        terms@.len() == answers@.len(),
    ensures
        forall|g: int| 0 <= g < r@.len() ==> views_of((#[trigger] r@[g]).1@) == terms_at(
            views_of(terms@),
            answers@,
            r@[g].0,
        ),
        forall|g: int| 0 <= g < r@.len() ==> (#[trigger] r@[g]).1@.len() > 0,
        forall|g: int, h: int| 0 <= g < h < r@.len() ==> r@[g].0 != r@[h].0,
        forall|k: int|
            0 <= k < answers@.len() ==> (#[trigger] answers@[k] matches Some(inst) ==> exists|g: int|
                0 <= g < r@.len() && r@[g].0 == inst.address),
{
    let mut out: Vec<(Address, Vec<String>)> = Vec::new();
    let mut k: usize = 0;
    while k < terms.len()
        invariant
            k <= terms@.len(),
            terms@.len() == answers@.len(),
            forall|g: int| 0 <= g < out@.len() ==> views_of((#[trigger] out@[g]).1@) == terms_at(
                views_of(terms@.subrange(0, k as int)),
                answers@.subrange(0, k as int),
                out@[g].0,
            ),
            forall|g: int| 0 <= g < out@.len() ==> (#[trigger] out@[g]).1@.len() > 0,
            forall|g: int, h: int| 0 <= g < h < out@.len() ==> out@[g].0 != out@[h].0,
            forall|q: int|
                0 <= q < k ==> (#[trigger] answers@[q] matches Some(inst) ==> exists|g: int|
                    0 <= g < out@.len() && out@[g].0 == inst.address),
            forall|a: Address| (forall|g: int| 0 <= g < out@.len() ==> out@[g].0 != a) ==> #[trigger] terms_at(
                views_of(terms@.subrange(0, k as int)),
                answers@.subrange(0, k as int),
                a,
            ) == Seq::<Seq<char>>::empty(),
        decreases terms@.len() - k,
    {
        let ghost ts0 = views_of(terms@.subrange(0, k as int));
        let ghost as0 = answers@.subrange(0, k as int);
        let ghost ts1 = views_of(terms@.subrange(0, k + 1));
        let ghost as1 = answers@.subrange(0, k + 1);
        assert(ts1.drop_last() =~= ts0);
        assert(as1.drop_last() =~= as0);
        assert(ts1.last() == terms@[k as int]@);
        assert(as1.last() == answers@[k as int]);
        let ghost old_out = out@;
        match answers[k] {
            Some(inst) => {
                let mut g: usize = 0;
                while g < out.len() && out[g].0 != inst.address
                    invariant
                        g <= out@.len(),
                        forall|x: int| 0 <= x < g ==> out@[x].0 != inst.address,
                    decreases out@.len() - g,
                {
                    g = g + 1;
                }
                let term = terms[k].clone();
                if g < out.len() {
                    let (a, mut group) = out.remove(g);
                    let ghost before = views_of(group@);
                    group.push(term);
                    assert(views_of(group@) =~= before.push(terms@[k as int]@));
                    out.insert(g, (a, group));
                    assert(out@ =~= old_out.update(g as int, (a, group)));
                    assert forall|x: int| 0 <= x < out@.len() implies views_of((#[trigger] out@[x]).1@)
                        == terms_at(ts1, as1, out@[x].0) by {
                        if x != g {
                            assert(old_out[x].0 != inst.address);
                        }
                    }
                    assert forall|q: int| 0 <= q < k + 1 implies (#[trigger] answers@[q] matches Some(i)
                        ==> exists|y: int| 0 <= y < out@.len() && out@[y].0 == i.address) by {
                        if q < k {
                            if let Some(i) = answers@[q] {
                                let y = choose|y: int| 0 <= y < old_out.len() && old_out[y].0 == i.address;
                                assert(out@[y].0 == i.address);
                            }
                        } else {
                            assert(out@[g as int].0 == inst.address);
                        }
                    }
                    assert forall|b: Address| (forall|y: int| 0 <= y < out@.len() ==> out@[y].0 != b)
                        implies #[trigger] terms_at(ts1, as1, b) == Seq::<Seq<char>>::empty() by {
                        assert(out@[g as int].0 != b);
                        assert forall|y: int| 0 <= y < old_out.len() implies old_out[y].0 != b by {
                            assert(out@[y].0 == old_out[y].0);
                        }
                        assert(terms_at(ts0, as0, b) == Seq::<Seq<char>>::empty());
                        assert(terms_at(ts1, as1, b) == terms_at(ts0, as0, b));
                    }
                } else {
                    let mut group: Vec<String> = Vec::new();
                    group.push(term);
                    assert(views_of(group@) =~= seq![terms@[k as int]@]);
                    assert(terms_at(ts0, as0, inst.address) == Seq::<Seq<char>>::empty());
                    out.push((inst.address, group));
                    assert forall|x: int| 0 <= x < out@.len() implies views_of((#[trigger] out@[x]).1@)
                        == terms_at(ts1, as1, out@[x].0) by {
                        if x < old_out.len() {
                            assert(old_out[x].0 != inst.address);
                            assert(out@[x] == old_out[x]);
                        } else {
                            assert(Seq::<Seq<char>>::empty().push(terms@[k as int]@) =~= seq![terms@[k as int]@]);
                        }
                    }
                    assert forall|q: int| 0 <= q < k + 1 implies (#[trigger] answers@[q] matches Some(i)
                        ==> exists|y: int| 0 <= y < out@.len() && out@[y].0 == i.address) by {
                        if q < k {
                            if let Some(i) = answers@[q] {
                                let y = choose|y: int| 0 <= y < old_out.len() && old_out[y].0 == i.address;
                                assert(out@[y].0 == i.address);
                            }
                        } else {
                            assert(out@[old_out.len() as int].0 == inst.address);
                        }
                    }
                    assert forall|b: Address| (forall|y: int| 0 <= y < out@.len() ==> out@[y].0 != b)
                        implies #[trigger] terms_at(ts1, as1, b) == Seq::<Seq<char>>::empty() by {
                        assert(out@[old_out.len() as int].0 != b);
                        assert forall|y: int| 0 <= y < old_out.len() implies old_out[y].0 != b by {
                            assert(out@[y] == old_out[y]);
                        }
                        assert(terms_at(ts0, as0, b) == Seq::<Seq<char>>::empty());
                        assert(terms_at(ts1, as1, b) == terms_at(ts0, as0, b));
                    }
                    assert forall|x: int, y: int| 0 <= x < y < out@.len() implies out@[x].0 != out@[y].0 by {
                        if y == old_out.len() {
                            assert(out@[x] == old_out[x]);
                        }
                    }
                }
            },
            None => {
                assert forall|b: Address| #[trigger] terms_at(ts1, as1, b) == terms_at(ts0, as0, b) by {}
                assert forall|q: int| 0 <= q < k + 1 implies (#[trigger] answers@[q] matches Some(i)
                    ==> exists|y: int| 0 <= y < out@.len() && out@[y].0 == i.address) by {
                    if q < k {
                        if let Some(i) = answers@[q] {
                            let y = choose|y: int| 0 <= y < old_out.len() && old_out[y].0 == i.address;
                            assert(out@[y].0 == i.address);
                        }
                    }
                }
            },
        }
        k = k + 1;
    }
    assert(terms@.subrange(0, k as int) =~= terms@);
    assert(answers@.subrange(0, k as int) =~= answers@);
    out
}

/// The rooms that an instance at `address` reported for its terms.
pub fn chatroom_entries(address: &Address, counts: &Vec<TermCount>) -> (r: Vec<Chatroom>)
    ensures
        r@.len() == counts@.len(),
        forall|k: int|
            0 <= k < counts@.len() ==> {
                &&& (#[trigger] r@[k]).term@ == counts@[k].term@
                &&& r@[k].chatroom_id == counts@[k].chatroom_id
                &&& r@[k].num_users == counts@[k].user_count
                &&& r@[k].online
                &&& r@[k].url@ == ws_url(*address)
            },
{
    let mut url: Vec<char> = Vec::new();
    url.push('w');
    url.push('s');
    url.push(':');
    url.push('/');
    url.push('/');
    push_address(&mut url, address);
    url.push('/');
    url.push('w');
    url.push('s');
    assert(url@ =~= ws_url(*address));
    let mut out: Vec<Chatroom> = Vec::new();
    let mut k: usize = 0;
    while k < counts.len()
        invariant
            k <= counts@.len(),
            out@.len() == k,
            url@ == ws_url(*address),
            forall|q: int|
                0 <= q < k ==> {
                    &&& (#[trigger] out@[q]).term@ == counts@[q].term@
                    &&& out@[q].chatroom_id == counts@[q].chatroom_id
                    &&& out@[q].num_users == counts@[q].user_count
                    &&& out@[q].online
                    &&& out@[q].url@ == ws_url(*address)
                },
        decreases counts@.len() - k,
    {
        let c = &counts[k];
        out.push(
            Chatroom {
                chatroom_id: c.chatroom_id,
                num_users: c.user_count,
                online: true,
                term: c.term.clone(),
                url: string_of(&url),
            },
        );
        k = k + 1;
    }
    out
}

} // verus!
