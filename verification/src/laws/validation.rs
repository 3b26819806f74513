//! What the check of policies finds, and which texts are blocks.
use crate::addr::{address_of, parsed_cidr, Cidr};
use crate::api::v1alpha1::{AllowView, GlobalPolicy, GlobalView, Peer, PeerView};
use crate::cli::{first_complaint, peer_blocks, peers_blocks, policies_complaint,
    policy_blocks, policy_extension, rules_blocks, valid_line};
use crate::laws::text::cut_at_first;
use crate::reconcile::policies::global_views;
use crate::text::{debug_quoted, decimal, parsed_unsigned, split_at_first_joined};
use vstd::prelude::*;

verus! {

/// Whether the block of a peer and all its excepted blocks parse.
pub open spec fn peer_parses(p: Peer) -> bool {
    &&& p.cidr matches Some(c) ==> parsed_cidr(c@) is Ok
    &&& forall|i: int| 0 <= i < p.except@.len() ==> parsed_cidr((#[trigger] p.except@[i])@) is Ok
}

/// Whether the blocks of all peers of a list parse.
pub open spec fn peers_parse(peers: Seq<Peer>) -> bool {
    forall|i: int| 0 <= i < peers.len() ==> peer_parses(#[trigger] peers[i])
}

/// Whether the blocks of all peers of all ingress rules and of all egress rules of a policy parse.
pub open spec fn policy_parses(g: GlobalPolicy) -> bool {
    &&& forall|i: int|
        0 <= i < g.policy.ingress@.len() ==> peers_parse((#[trigger] g.policy.ingress@[i]).from@)
    &&& forall|i: int|
        0 <= i < g.policy.egress@.len() ==> peers_parse((#[trigger] g.policy.egress@[i]).to@)
}

proof fn lemma_none(name: Seq<char>, texts: Seq<Seq<char>>)
    ensures
        first_complaint(name, texts) is None <==> forall|i: int|
            0 <= i < texts.len() ==> parsed_cidr(#[trigger] texts[i]) is Ok,
    decreases texts.len(),
{
    if texts.len() > 0 {
        let init = texts.drop_last();
        let n = texts.len() - 1;
        lemma_none(name, init);
        assert(texts[n] == texts.last());
        if first_complaint(name, texts) is None {
            assert forall|i: int| 0 <= i < texts.len() implies parsed_cidr(
                #[trigger] texts[i],
            ) is Ok by {
                if i < n {
                    assert(init[i] == texts[i]);
                }
            }
        }
        if forall|i: int| 0 <= i < texts.len() ==> parsed_cidr(#[trigger] texts[i]) is Ok {
            assert forall|i: int| 0 <= i < init.len() implies parsed_cidr(
                #[trigger] init[i],
            ) is Ok by {
                assert(init[i] == texts[i]);
            }
            assert(parsed_cidr(texts[n]) is Ok);
        }
    }
}

proof fn lemma_join(name: Seq<char>, a: Seq<Seq<char>>, b: Seq<Seq<char>>)
    ensures
        first_complaint(name, a + b) is None <==> first_complaint(name, a) is None
            && first_complaint(name, b) is None,
        first_complaint(name, a) is Some ==> first_complaint(name, a + b) == first_complaint(
            name,
            a,
        ),
        first_complaint(name, a) is None ==> first_complaint(name, a + b) == first_complaint(
            name,
            b,
        ),
    decreases b.len(),
{
    if b.len() == 0 {
        assert(a + b =~= a);
    } else {
        assert((a + b).drop_last() =~= a + b.drop_last());
        assert((a + b).last() == b.last());
        lemma_join(name, a, b.drop_last());
    }
}

proof fn lemma_peer(name: Seq<char>, p: Peer)
    ensures
        first_complaint(name, peer_blocks(p@)) is None <==> peer_parses(p),
{
    let except = p@.except;
    lemma_none(name, except);
    assert((forall|i: int| 0 <= i < except.len() ==> parsed_cidr(#[trigger] except[i]) is Ok)
        <==> forall|i: int|
        0 <= i < p.except@.len() ==> parsed_cidr((#[trigger] p.except@[i])@) is Ok) by {
        assert(except.len() == p.except@.len());
        if forall|i: int| 0 <= i < except.len() ==> parsed_cidr(#[trigger] except[i]) is Ok {
            assert forall|i: int| 0 <= i < p.except@.len() implies parsed_cidr(
                (#[trigger] p.except@[i])@,
            ) is Ok by {
                assert(except[i] == p.except@[i]@);
            }
        }
        if forall|i: int| 0 <= i < p.except@.len() ==> parsed_cidr((#[trigger] p.except@[i])@) is Ok {
            assert forall|i: int| 0 <= i < except.len() implies parsed_cidr(
                #[trigger] except[i],
            ) is Ok by {
                assert(except[i] == p.except@[i]@);
            }
        }
    }
    if let Some(c) = p.cidr {
        lemma_join(name, seq![c@], except);
        lemma_none(name, seq![c@]);
        assert(seq![c@][0] == c@);
    }
}

proof fn lemma_peers(name: Seq<char>, peers: Seq<Peer>, shown: Seq<PeerView>)
    requires
        shown.len() == peers.len(),
        forall|i: int| 0 <= i < peers.len() ==> (#[trigger] shown[i]) == peers[i]@,
    ensures
        first_complaint(name, peers_blocks(shown)) is None <==> peers_parse(peers),
    decreases peers.len(),
{
    if peers.len() > 0 {
        let init = peers.drop_last();
        let n = peers.len() - 1;
        lemma_peers(name, init, shown.drop_last());
        lemma_peer(name, peers[n]);
        lemma_join(name, peers_blocks(shown.drop_last()), peer_blocks(shown.last()));
        if peers_parse(init) && peer_parses(peers[n]) {
            assert forall|i: int| 0 <= i < peers.len() implies peer_parses(#[trigger] peers[i]) by {
                if i < n {
                    assert(init[i] == peers[i]);
                }
            }
        }
        if peers_parse(peers) {
            assert forall|i: int| 0 <= i < init.len() implies peer_parses(#[trigger] init[i]) by {
                assert(init[i] == peers[i]);
            }
        }
    }
}

proof fn lemma_rules(name: Seq<char>, lists: Seq<Seq<Peer>>, shown: Seq<AllowView>)
    requires
        shown.len() == lists.len(),
        forall|i: int|
            0 <= i < lists.len() ==> (#[trigger] shown[i]).peers.len() == lists[i].len(),
        forall|i: int, j: int|
            0 <= i < lists.len() && 0 <= j < lists[i].len() ==> (#[trigger] shown[i].peers[j])
                == lists[i][j]@,
    ensures
        first_complaint(name, rules_blocks(shown)) is None <==> forall|i: int|
            0 <= i < lists.len() ==> peers_parse(#[trigger] lists[i]),
    decreases lists.len(),
{
    if lists.len() > 0 {
        let init = lists.drop_last();
        let n = lists.len() - 1;
        let less = shown.drop_last();
        assert forall|i: int| 0 <= i < init.len() implies (#[trigger] less[i]).peers.len()
            == init[i].len() by {
            assert(less[i] == shown[i]);
        }
        assert forall|i: int, j: int| 0 <= i < init.len() && 0 <= j < init[i].len() implies (
        #[trigger] less[i].peers[j]) == init[i][j]@ by {
            assert(shown[i].peers[j] == lists[i][j]@);
        }
        lemma_rules(name, init, less);
        assert(shown[n].peers.len() == lists[n].len());
        assert forall|j: int| 0 <= j < lists[n].len() implies (#[trigger] shown[n].peers[j])
            == lists[n][j]@ by {}
        lemma_peers(name, lists[n], shown[n].peers);
        lemma_join(name, rules_blocks(less), peers_blocks(shown.last().peers));
        if (forall|i: int| 0 <= i < init.len() ==> peers_parse(#[trigger] init[i])) && peers_parse(
            lists[n],
        ) {
            assert forall|i: int| 0 <= i < lists.len() implies peers_parse(#[trigger] lists[i]) by {
                if i < n {
                    assert(init[i] == lists[i]);
                }
            }
        }
        if forall|i: int| 0 <= i < lists.len() ==> peers_parse(#[trigger] lists[i]) {
            assert forall|i: int| 0 <= i < init.len() implies peers_parse(#[trigger] init[i]) by {
                assert(init[i] == lists[i]);
            }
            assert(peers_parse(lists[n]));
        }
    }
}

proof fn lemma_sides(g: GlobalPolicy)
    ensures
        first_complaint(g@.name, rules_blocks(g@.policy.ingress)) is None <==> forall|i: int|
            0 <= i < g.policy.ingress@.len() ==> peers_parse(
                (#[trigger] g.policy.ingress@[i]).from@,
            ),
        first_complaint(g@.name, rules_blocks(g@.policy.egress)) is None <==> forall|i: int|
            0 <= i < g.policy.egress@.len() ==> peers_parse((#[trigger] g.policy.egress@[i]).to@),
{
    let inn = Seq::new(g.policy.ingress@.len(), |i: int| g.policy.ingress@[i].from@);
    let out = Seq::new(g.policy.egress@.len(), |i: int| g.policy.egress@[i].to@);
    lemma_rules(g@.name, inn, g@.policy.ingress);
    lemma_rules(g@.name, out, g@.policy.egress);
    if forall|i: int| 0 <= i < inn.len() ==> peers_parse(#[trigger] inn[i]) {
        assert forall|i: int| 0 <= i < g.policy.ingress@.len() implies peers_parse(
            (#[trigger] g.policy.ingress@[i]).from@,
        ) by {
            assert(peers_parse(inn[i]));
        }
    }
    if forall|i: int| 0 <= i < out.len() ==> peers_parse(#[trigger] out[i]) {
        assert forall|i: int| 0 <= i < g.policy.egress@.len() implies peers_parse(
            (#[trigger] g.policy.egress@[i]).to@,
        ) by {
            assert(peers_parse(out[i]));
        }
    }
}

/// The check of a policy finds nothing exactly if every block and every excepted block of every peer
/// of every ingress rule and of every egress rule parses.
pub proof fn policy_checked_whole(g: GlobalPolicy)
    ensures
        first_complaint(g.name@, policy_blocks(g@)) is None <==> policy_parses(g),
{
    lemma_sides(g);
    lemma_join(g@.name, rules_blocks(g@.policy.ingress), rules_blocks(g@.policy.egress));
}

/// The check of policies finds nothing exactly if every block and every excepted block of every peer
/// of every ingress rule and of every egress rule of every policy parses.
pub proof fn policies_checked_whole(globals: Seq<GlobalPolicy>)
    ensures
        policies_complaint(global_views(globals)) is None <==> forall|i: int|
            0 <= i < globals.len() ==> policy_parses(#[trigger] globals[i]),
    decreases globals.len(),
{
    let shown = global_views(globals);
    if globals.len() > 0 {
        let init = globals.drop_last();
        let n = globals.len() - 1;
        policies_checked_whole(init);
        assert(shown.drop_last() =~= global_views(init));
        assert(shown.last() == globals[n]@);
        policy_checked_whole(globals[n]);
        if policies_complaint(shown) is None {
            assert forall|i: int| 0 <= i < globals.len() implies policy_parses(
                #[trigger] globals[i],
            ) by {
                if i < n {
                    assert(init[i] == globals[i]);
                }
            }
        }
        if forall|i: int| 0 <= i < globals.len() ==> policy_parses(#[trigger] globals[i]) {
            assert forall|i: int| 0 <= i < init.len() implies policy_parses(#[trigger] init[i]) by {
                assert(init[i] == globals[i]);
            }
            assert(policy_parses(globals[n]));
        }
    }
}

/// Whether a peer states a block text, as its block or as one that is excepted.
pub open spec fn peer_states(p: PeerView, text: Seq<char>) -> bool {
    p.cidr == Some(text) || p.except.contains(text)
}

/// Whether a peer of a rule of a list states a block text.
pub open spec fn rules_state(rules: Seq<AllowView>, text: Seq<char>) -> bool {
    exists|i: int, j: int|
        0 <= i < rules.len() && 0 <= j < rules[i].peers.len() && peer_states(
            #[trigger] rules[i].peers[j],
            text,
        )
}

proof fn lemma_found(name: Seq<char>, texts: Seq<Seq<char>>) -> (k: int)
    requires
        first_complaint(name, texts) is Some,
    ensures
        0 <= k < texts.len(),
        parsed_cidr(texts[k]) matches Err(e) && first_complaint(name, texts) == Some(
            "policy "@ + debug_quoted(name) + ": invalid CIDR "@ + debug_quoted(texts[k]) + ": "@
                + e,
        ),
        forall|i: int| 0 <= i < k ==> parsed_cidr(#[trigger] texts[i]) is Ok,
    decreases texts.len(),
{
    let init = texts.drop_last();
    if first_complaint(name, init) is Some {
        let k = lemma_found(name, init);
        assert(texts[k] == init[k]);
        assert forall|i: int| 0 <= i < k implies parsed_cidr(#[trigger] texts[i]) is Ok by {
            assert(texts[i] == init[i]);
        }
        k
    } else {
        lemma_none(name, init);
        let k = texts.len() - 1;
        assert forall|i: int| 0 <= i < k implies parsed_cidr(#[trigger] texts[i]) is Ok by {
            assert(texts[i] == init[i]);
        }
        k
    }
}

proof fn lemma_peer_states(p: PeerView, text: Seq<char>)
    ensures
        peer_blocks(p).contains(text) <==> peer_states(p, text),
{
    let all = peer_blocks(p);
    if let Some(c) = p.cidr {
        assert(all[0] == c);
        if all.contains(text) {
            let i = choose|i: int| 0 <= i < all.len() && all[i] == text;
            if i > 0 {
                assert(p.except[i - 1] == text);
            }
        }
        if p.except.contains(text) {
            let i = choose|i: int| 0 <= i < p.except.len() && p.except[i] == text;
            assert(all[i + 1] == text);
        }
    }
}

proof fn lemma_add_contains(a: Seq<Seq<char>>, b: Seq<Seq<char>>, x: Seq<char>)
    ensures
        (a + b).contains(x) <==> a.contains(x) || b.contains(x),
{
    if a.contains(x) {
        let i = choose|i: int| 0 <= i < a.len() && a[i] == x;
        assert((a + b)[i] == x);
    }
    if b.contains(x) {
        let i = choose|i: int| 0 <= i < b.len() && b[i] == x;
        assert((a + b)[i + a.len()] == x);
    }
}

proof fn lemma_peers_state(peers: Seq<PeerView>, text: Seq<char>)
    ensures
        peers_blocks(peers).contains(text) <==> exists|j: int|
            0 <= j < peers.len() && peer_states(#[trigger] peers[j], text),
    decreases peers.len(),
{
    if peers.len() > 0 {
        let init = peers.drop_last();
        let n = peers.len() - 1;
        lemma_peers_state(init, text);
        lemma_peer_states(peers[n], text);
        lemma_add_contains(peers_blocks(init), peer_blocks(peers.last()), text);
        if peers_blocks(init).contains(text) {
            let j = choose|j: int| 0 <= j < init.len() && peer_states(#[trigger] init[j], text);
            assert(peers[j] == init[j]);
        }
        if exists|j: int| 0 <= j < peers.len() && peer_states(#[trigger] peers[j], text) {
            let j = choose|j: int| 0 <= j < peers.len() && peer_states(#[trigger] peers[j], text);
            if j < n {
                assert(init[j] == peers[j]);
            }
        }
    }
}

proof fn lemma_rules_state(rules: Seq<AllowView>, text: Seq<char>)
    ensures
        rules_blocks(rules).contains(text) <==> rules_state(rules, text),
    decreases rules.len(),
{
    if rules.len() > 0 {
        let init = rules.drop_last();
        let n = rules.len() - 1;
        lemma_rules_state(init, text);
        lemma_peers_state(rules[n].peers, text);
        lemma_add_contains(rules_blocks(init), peers_blocks(rules.last().peers), text);
        if rules_state(init, text) {
            let (i, j) = choose|i: int, j: int|
                0 <= i < init.len() && 0 <= j < init[i].peers.len() && peer_states(
                    #[trigger] init[i].peers[j],
                    text,
                );
            assert(rules[i].peers[j] == init[i].peers[j]);
            assert(peer_states(rules[i].peers[j], text));
        }
        if peers_blocks(rules[n].peers).contains(text) {
            let j = choose|j: int|
                0 <= j < rules[n].peers.len() && peer_states(#[trigger] rules[n].peers[j], text);
            assert(peer_states(rules[n].peers[j], text));
        }
        if rules_state(rules, text) {
            let (i, j) = choose|i: int, j: int|
                0 <= i < rules.len() && 0 <= j < rules[i].peers.len() && peer_states(
                    #[trigger] rules[i].peers[j],
                    text,
                );
            if i < n {
                assert(init[i].peers[j] == rules[i].peers[j]);
                assert(peer_states(init[i].peers[j], text));
            } else {
                assert(peer_states(rules[n].peers[j], text));
            }
        }
    }
}

/// What the check of a policy finds is a text that a rule of it states and that does not parse; the
/// message names the policy, the text and why. Texts of ingress rules come first.
pub proof fn complaint_quotes_a_stated_text(g: GlobalView) -> (text: Seq<char>)
    requires
        first_complaint(g.name, policy_blocks(g)) is Some,
    ensures
        parsed_cidr(text) matches Err(e) && first_complaint(g.name, policy_blocks(g)) == Some(
            "policy "@ + debug_quoted(g.name) + ": invalid CIDR "@ + debug_quoted(text) + ": "@ + e,
        ),
        rules_state(g.policy.ingress, text) || rules_state(g.policy.egress, text),
        (exists|bad: Seq<char>| #[trigger]
            rules_state(g.policy.ingress, bad) && parsed_cidr(bad) is Err) ==> rules_state(
            g.policy.ingress,
            text,
        ),
{
    let inn = rules_blocks(g.policy.ingress);
    let out = rules_blocks(g.policy.egress);
    lemma_join(g.name, inn, out);
    if exists|bad: Seq<char>| #[trigger]
        rules_state(g.policy.ingress, bad) && parsed_cidr(bad) is Err {
        let bad = choose|bad: Seq<char>| #[trigger]
            rules_state(g.policy.ingress, bad) && parsed_cidr(bad) is Err;
        lemma_rules_state(g.policy.ingress, bad);
        lemma_none(g.name, inn);
        let i = choose|i: int| 0 <= i < inn.len() && inn[i] == bad;
        assert(parsed_cidr(inn[i]) is Err);
    }
    if first_complaint(g.name, inn) is Some {
        let k = lemma_found(g.name, inn);
        lemma_rules_state(g.policy.ingress, inn[k]);
        inn[k]
    } else {
        let k = lemma_found(g.name, out);
        lemma_rules_state(g.policy.egress, out[k]);
        out[k]
    }
}

/// What is found of policies is what is found of the first of them of which anything is found.
pub proof fn first_policy_complained_of(
    before: Seq<GlobalView>,
    g: GlobalView,
    after: Seq<GlobalView>,
)
    requires
        policies_complaint(before) is None,
        first_complaint(g.name, policy_blocks(g)) is Some,
    ensures
        policies_complaint(before + seq![g] + after) == first_complaint(g.name, policy_blocks(g)),
    decreases after.len(),
{
    let all = before + seq![g] + after;
    if after.len() == 0 {
        assert(all.drop_last() =~= before);
        assert(all.last() == g);
    } else {
        assert(all.drop_last() =~= before + seq![g] + after.drop_last());
        first_policy_complained_of(before, g, after.drop_last());
    }
}

/// A text is a block exactly if it is an address, a slash and a prefix that is not longer than the
/// address; otherwise the message says which of these is amiss.
pub proof fn block_texts(addr: Seq<char>, prefix: Seq<char>)
    requires
        !addr.contains('/'),
    ensures
        parsed_cidr(addr) == Err::<Cidr, Seq<char>>("missing '/' in CIDR "@ + debug_quoted(addr)),
        address_of(addr) is None ==> parsed_cidr(addr + seq!['/'] + prefix) == Err::<
            Cidr,
            Seq<char>,
        >("invalid CIDR address "@ + debug_quoted(addr)),
        address_of(addr) is Some && parsed_unsigned(prefix, 255) is None ==> parsed_cidr(
            addr + seq!['/'] + prefix,
        ) == Err::<Cidr, Seq<char>>("invalid CIDR prefix "@ + debug_quoted(prefix)),
        address_of(addr) matches Some(a) ==> parsed_unsigned(prefix, 255) matches Some(n) ==> {
            let width: nat = if a is V4 {
                32
            } else {
                128
            };
            match parsed_cidr(addr + seq!['/'] + prefix) {
                Ok(c) => n <= width && c.addr == a && c.prefix == n,
                Err(e) => n > width && e == "CIDR prefix out of range: "@ + decimal(n),
            }
        },
{
    split_at_first_joined(addr, '/', prefix);
    cut_at_first(addr, '/');
}

/// A text with a slash is no address, and one without is no block.
pub proof fn no_address_with_a_slash(s: Seq<char>)
    ensures
        s.contains('/') ==> address_of(s) is None,
        parsed_cidr(s) is Ok ==> s.contains('/'),
{
    cut_at_first(s, '/');
    if parsed_cidr(s) is Ok && !s.contains('/') {
        assert(crate::text::split_at_first(s, '/') is None);
    }
}

/// The line on valid policies gives their number, with the word that goes with it, and the path.
pub proof fn valid_line_counts(n: nat, path: Seq<char>)
    ensures
        valid_line(1, path) == "ok: 1 global policy in "@ + path,
        n != 1 ==> valid_line(n, path) == "ok: "@ + decimal(n) + " global policies in "@ + path,
{
    reveal_strlit("ok: ");
    reveal_strlit(" global ");
    reveal_strlit("policy");
    reveal_strlit("policies");
    reveal_strlit(" in ");
    reveal_strlit("ok: 1 global policy in ");
    reveal_strlit(" global policies in ");
    reveal_with_fuel(decimal, 2);
    assert(decimal(1) =~= seq!['1']);
    assert(valid_line(1, path) =~= "ok: 1 global policy in "@ + path);
    assert(valid_line(n, path) == "ok: "@ + decimal(n) + " global "@ + (if n == 1 {
        "policy"@
    } else {
        "policies"@
    }) + " in "@ + path);
    if n != 1 {
        assert(valid_line(n, path) =~= "ok: "@ + decimal(n) + " global policies in "@ + path);
    }
}

/// Policy files are those named `.yaml` or `.yml`.
pub proof fn policy_file_names(extension: Seq<char>)
    ensures
        !policy_extension(None),
        policy_extension(Some("yaml"@)) && policy_extension(Some("yml"@)),
        policy_extension(Some(extension)) ==> extension == "yaml"@ || extension == "yml"@,
{
}

} // verus!
