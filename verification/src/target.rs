//! The ordered list of ping targets: gateway -> traceroute hops -> public
//! anchors -> extra targets. The diagnosis depends on this order (walking
//! outward from this machine toward the internet).
use vstd::prelude::*;
use crate::ip::{IpAddr, ip_text, lemma_ip_text_nonempty};
use crate::platform::{Hop, trim, trim_exec, owned};
use crate::scan::{CharClass, span, span_end, sub_vec, chars_of};
use crate::text::{nat_text, push_decimal, push_str};

verus! {

/// A display name and the address handed to `ping`.
pub struct Target {
    pub name: String,
    pub address: String,
}

/// A target as (name, address) texts.
pub open spec fn target_view(t: Target) -> (Seq<char>, Seq<char>) {
    (t.name@, t.address@)
}

/// `addr` is already the address of one of the targets.
pub open spec fn has_address(list: Seq<(Seq<char>, Seq<char>)>, addr: Seq<char>) -> bool {
    exists|i: int| 0 <= i < list.len() && #[trigger] list[i].1 == addr
}

/// The list after offering (name, addr): appended unless the address is
/// empty or already present. Duplicates are found by comparing the literal
/// address text, with no name resolution.
pub open spec fn offered(list: Seq<(Seq<char>, Seq<char>)>, name: Seq<char>, addr: Seq<char>) -> Seq<
    (Seq<char>, Seq<char>),
> {
    if addr.len() > 0 && !has_address(list, addr) {
        list.push((name, addr))
    } else {
        list
    }
}

/// No target has an empty address and no two targets share one.
pub open spec fn distinct_addresses(list: Seq<(Seq<char>, Seq<char>)>) -> bool {
    &&& forall|i: int| 0 <= i < list.len() ==> (#[trigger] list[i]).1.len() > 0
    &&& forall|i: int, j: int| 0 <= i < j < list.len() ==> (#[trigger] list[i]).1 != (#[trigger] list[j]).1
}

/// Offering a target keeps the addresses distinct and non-empty, and
/// keeps every earlier target in place.
pub proof fn lemma_offered_keeps_distinct(
    list: Seq<(Seq<char>, Seq<char>)>,
    name: Seq<char>,
    addr: Seq<char>,
)
    requires
        distinct_addresses(list),
    ensures
        distinct_addresses(offered(list, name, addr)),
        offered(list, name, addr).len() >= list.len(),
        offered(list, name, addr).take(list.len() as int) == list,
        has_address(offered(list, name, addr), addr) <==> addr.len() > 0,
{
    let r = offered(list, name, addr);
    assert(r.take(list.len() as int) =~= list);
    if addr.len() > 0 && !has_address(list, addr) {
        assert(r[list.len() as int].1 == addr);
        assert forall|i: int, j: int| 0 <= i < j < r.len() implies (#[trigger] r[i]).1 != (
        #[trigger] r[j]).1 by {
            if j == list.len() {
                assert(list[i].1 != addr);
            }
        }
    } else if addr.len() == 0 {
        assert forall|i: int| 0 <= i < r.len() implies #[trigger] r[i].1 != addr by {
            assert(r[i].1.len() > 0);
        }
    }
}

/// Targets in the order they were offered, without duplicate addresses.
pub struct TargetList {
    targets: Vec<Target>,
}

impl View for TargetList {
    type V = Seq<(Seq<char>, Seq<char>)>;

    closed spec fn view(&self) -> Seq<(Seq<char>, Seq<char>)> {
        self.targets@.map_values(|t: Target| target_view(t))
    }
}

impl TargetList {
    /// An empty list.
    pub fn new() -> (r: TargetList)
        ensures
            r@ == Seq::<(Seq<char>, Seq<char>)>::empty(),
    {
        let r = TargetList { targets: Vec::new() };
        assert(r@ =~= Seq::<(Seq<char>, Seq<char>)>::empty());
        r
    }

    /// Offers a target: it is appended unless its address is empty or is
    /// already the address of a listed target.
    pub fn add(&mut self, name: String, address: String)
        ensures
            final(self)@ == offered(old(self)@, name@, address@),
    {
        if address.as_str().is_empty() {
            return;
        }
        let n = self.targets.len();
        let mut i: usize = 0;
        while i < n
            invariant
                i <= n,
                n == self.targets@.len(),
                self@ == self.targets@.map_values(|t: Target| target_view(t)),
                forall|j: int| 0 <= j < i ==> (#[trigger] self@[j]).1 != address@,
            decreases n - i,
        {
            if self.targets[i].address == address {
                assert(self@[i as int].1 == address@);
                return;
            }
            i = i + 1;
        }
        let ghost before = self@;
        self.targets.push(Target { name, address });
        assert(self@ =~= offered(before, name@, address@));
    }

    /// The listed targets.
    pub fn into_vec(self) -> (r: Vec<Target>)
        ensures
            r@.map_values(|t: Target| target_view(t)) == self@,
    {
        self.targets
    }
}

/// The public anchors pinged on every run, as (name, address).
pub open spec fn anchors() -> Seq<(Seq<char>, Seq<char>)> {
    seq![("cloudflare(1.1.1.1)"@, "1.1.1.1"@), ("google(8.8.8.8)"@, "8.8.8.8"@)]
}

/// The pieces of `s` between commas from position `i` on (`str::split(',')`).
pub open spec fn comma_pieces(s: Seq<char>, i: int) -> Seq<Seq<char>>
    decreases s.len() - i,
{
    let e = span_end(s, i, CharClass::NonComma);
    if 0 <= i <= e < s.len() {
        seq![s.subrange(i, e)] + comma_pieces(s, e + 1)
    } else if 0 <= i <= e {
        seq![s.subrange(i, e)]
    } else {
        seq![]
    }
}

/// The host to trace the route to: the first comma-separated extra target,
/// trimmed, or 1.1.1.1 when there is none (or it is blank).
pub open spec fn probe_target_of(extras: Option<Seq<char>>) -> Seq<char> {
    match extras {
        Some(s) => {
            let first = trim(comma_pieces(s, 0)[0]);
            if first.len() > 0 {
                first
            } else {
                "1.1.1.1"@
            }
        },
        None => "1.1.1.1"@,
    }
}

/// The traceroute destination.
pub fn probe_target(extras: Option<&str>) -> (r: String)
    ensures
        r@ == probe_target_of(
            match extras {
                Some(s) => Some(s@),
                None => None,
            },
        ),
{
    match extras {
        Some(s) => {
            let t = chars_of(s);
            let e = span(&t, 0, CharClass::NonComma);
            let piece = sub_vec(&t, 0, e);
            let first = trim_exec(&piece);
            if first.len() > 0 {
                let mut r = String::new();
                let mut k: usize = 0;
                while k < first.len()
                    invariant
                        k <= first@.len(),
                        r@ == first@.take(k as int),
                    decreases first@.len() - k,
                {
                    crate::text::push_char(&mut r, first[k]);
                    assert(first@.take(k + 1) =~= first@.take(k as int).push(first@[k as int]));
                    k = k + 1;
                }
                assert(first@.take(first@.len() as int) =~= first@);
                r
            } else {
                owned("1.1.1.1")
            }
        },
        None => owned("1.1.1.1"),
    }
}

/// The name of a traceroute hop: `hop<n>(<address>)`.
pub open spec fn hop_name(n: u32, ip: IpAddr) -> Seq<char> {
    "hop"@ + nat_text(n as nat) + "("@ + ip_text(ip) + ")"@
}

/// Offering every responding hop, in order.
pub open spec fn offer_hops(list: Seq<(Seq<char>, Seq<char>)>, hops: Seq<Hop>) -> Seq<
    (Seq<char>, Seq<char>),
>
    decreases hops.len(),
{
    if hops.len() == 0 {
        list
    } else {
        let before = offer_hops(list, hops.drop_last());
        match hops.last().1 {
            Some(ip) => offered(before, hop_name(hops.last().0, ip), ip_text(ip)),
            None => before,
        }
    }
}

/// Offering every comma-separated extra target, trimmed, under its own
/// text as name.
pub open spec fn offer_extras(list: Seq<(Seq<char>, Seq<char>)>, pieces: Seq<Seq<char>>) -> Seq<
    (Seq<char>, Seq<char>),
>
    decreases pieces.len(),
{
    if pieces.len() == 0 {
        list
    } else {
        let before = offer_extras(list, pieces.drop_last());
        let p = trim(pieces.last());
        offered(before, p, p)
    }
}

/// The full target list: the gateway, the responding traceroute hops, the
/// two anchors, then the extra targets; an address already listed is
/// skipped.
pub open spec fn target_plan(gateway: Option<IpAddr>, hops: Seq<Hop>, extras: Option<Seq<char>>) -> Seq<
    (Seq<char>, Seq<char>),
> {
    let with_gateway = match gateway {
        Some(ip) => offered(seq![], "gateway"@, ip_text(ip)),
        None => seq![],
    };
    let with_hops = offer_hops(with_gateway, hops);
    let with_anchors = offered(
        offered(with_hops, anchors()[0].0, anchors()[0].1),
        anchors()[1].0,
        anchors()[1].1,
    );
    match extras {
        Some(s) => offer_extras(with_anchors, comma_pieces(s, 0)),
        None => with_anchors,
    }
}

fn hop_name_exec(n: u32, ip: &IpAddr) -> (r: String)
    ensures
        r@ == hop_name(n, *ip),
{
    let mut s = String::new();
    push_str(&mut s, "hop");
    push_decimal(&mut s, n as u128);
    push_str(&mut s, "(");
    let t = ip.to_text();
    push_str(&mut s, t.as_str());
    push_str(&mut s, ")");
    assert(s@ =~= hop_name(n, *ip));
    s
}

fn string_of_chars(v: &Vec<char>) -> (r: String)
    ensures
        r@ == v@,
{
    crate::scan::string_of(v, 0, v.len())
}

/// Builds the ordered target list from what discovery found.
pub fn assemble_targets(gateway: Option<IpAddr>, hops: &Vec<Hop>, extras: Option<&str>) -> (r: Vec<
    Target,
>)
    ensures
        r@.map_values(|t: Target| target_view(t)) == target_plan(
            gateway,
            hops@,
            match extras {
                Some(s) => Some(s@),
                None => None,
            },
        ),
{
    let mut list = TargetList::new();
    match gateway {
        Some(ip) => list.add(owned("gateway"), ip.to_text()),
        None => {},
    }
    let ghost start = list@;
    let n = hops.len();
    let mut i: usize = 0;
    while i < n
        invariant
            i <= n,
            n == hops@.len(),
            list@ == offer_hops(start, hops@.take(i as int)),
        decreases n - i,
    {
        assert(hops@.take(i + 1).drop_last() =~= hops@.take(i as int));
        let (num, ip) = hops[i];
        match ip {
            Some(ip) => list.add(hop_name_exec(num, &ip), ip.to_text()),
            None => {},
        }
        i = i + 1;
    }
    assert(hops@.take(n as int) =~= hops@);
    list.add(owned("cloudflare(1.1.1.1)"), owned("1.1.1.1"));
    list.add(owned("google(8.8.8.8)"), owned("8.8.8.8"));
    match extras {
        Some(s) => {
            let t = chars_of(s);
            let len = t.len();
            let ghost all = comma_pieces(t@, 0);
            let ghost base = list@;
            let mut pos: usize = 0;
            let ghost mut done: Seq<Seq<char>> = seq![];
            let mut finished = false;
            while !finished
                invariant
                    len == t@.len(),
                    t@ == s@,
                    all == comma_pieces(t@, 0),
                    pos <= len,
                    !finished ==> done + comma_pieces(t@, pos as int) == all,
                    finished ==> done == all,
                    list@ == offer_extras(base, done),
                decreases len - pos + if finished {
                    0int
                } else {
                    1int
                },
            {
                let e = span(&t, pos, CharClass::NonComma);
                let piece = sub_vec(&t, pos, e);
                let trimmed = trim_exec(&piece);
                let text = string_of_chars(&trimmed);
                let ghost before = done;
                proof {
                    done = done.push(piece@);
                    assert(done.drop_last() =~= before);
                }
                list.add(string_of_chars(&trimmed), text);
                if e < len {
                    assert(comma_pieces(t@, pos as int) =~= seq![piece@] + comma_pieces(t@, e + 1));
                    assert(done + comma_pieces(t@, e + 1) =~= before + comma_pieces(t@, pos as int));
                    pos = e + 1;
                } else {
                    assert(comma_pieces(t@, pos as int) =~= seq![piece@]);
                    assert(done =~= before + comma_pieces(t@, pos as int));
                    finished = true;
                }
            }
        },
        None => {},
    }
    let v = list.into_vec();
    v
}

proof fn lemma_offer_hops(list: Seq<(Seq<char>, Seq<char>)>, hops: Seq<Hop>)
    requires
        distinct_addresses(list),
    ensures
        distinct_addresses(offer_hops(list, hops)),
        offer_hops(list, hops).len() >= list.len(),
        offer_hops(list, hops).take(list.len() as int) == list,
    decreases hops.len(),
{
    if hops.len() > 0 {
        lemma_offer_hops(list, hops.drop_last());
        let before = offer_hops(list, hops.drop_last());
        if let Some(ip) = hops.last().1 {
            lemma_offered_keeps_distinct(before, hop_name(hops.last().0, ip), ip_text(ip));
            let after = offered(before, hop_name(hops.last().0, ip), ip_text(ip));
            assert(after.take(list.len() as int) =~= before.take(list.len() as int));
        }
    } else {
        assert(list.take(list.len() as int) =~= list);
    }
}

proof fn lemma_offer_extras(list: Seq<(Seq<char>, Seq<char>)>, pieces: Seq<Seq<char>>)
    requires
        distinct_addresses(list),
    ensures
        distinct_addresses(offer_extras(list, pieces)),
        offer_extras(list, pieces).len() >= list.len(),
        offer_extras(list, pieces).take(list.len() as int) == list,
    decreases pieces.len(),
{
    if pieces.len() > 0 {
        lemma_offer_extras(list, pieces.drop_last());
        let before = offer_extras(list, pieces.drop_last());
        let p = trim(pieces.last());
        lemma_offered_keeps_distinct(before, p, p);
        let after = offered(before, p, p);
        assert(after.take(list.len() as int) =~= before.take(list.len() as int));
    } else {
        assert(list.take(list.len() as int) =~= list);
    }
}

/// A listed address stays listed in any longer list that keeps the
/// shorter one as its prefix.
proof fn lemma_prefix_keeps_address(
    short: Seq<(Seq<char>, Seq<char>)>,
    long: Seq<(Seq<char>, Seq<char>)>,
    addr: Seq<char>,
)
    requires
        has_address(short, addr),
        long.len() >= short.len(),
        long.take(short.len() as int) == short,
    ensures
        has_address(long, addr),
{
    let i = choose|i: int| 0 <= i < short.len() && #[trigger] short[i].1 == addr;
    assert(long.take(short.len() as int)[i] == long[i]);
}

/// Every planned target has a non-empty address and no address is pinged
/// twice, whatever discovery found and whatever extras were given; both
/// public anchors are always on the list.
pub proof fn law_plan_is_deduplicated(
    gateway: Option<IpAddr>,
    hops: Seq<Hop>,
    extras: Option<Seq<char>>,
)
    ensures
        distinct_addresses(target_plan(gateway, hops, extras)),
        has_address(target_plan(gateway, hops, extras), "1.1.1.1"@),
        has_address(target_plan(gateway, hops, extras), "8.8.8.8"@),
{
    let empty = Seq::<(Seq<char>, Seq<char>)>::empty();
    let with_gateway = match gateway {
        Some(ip) => offered(empty, "gateway"@, ip_text(ip)),
        None => empty,
    };
    if let Some(ip) = gateway {
        lemma_offered_keeps_distinct(empty, "gateway"@, ip_text(ip));
    }
    lemma_offer_hops(with_gateway, hops);
    let with_hops = offer_hops(with_gateway, hops);
    reveal_strlit("1.1.1.1");
    reveal_strlit("8.8.8.8");
    lemma_offered_keeps_distinct(with_hops, anchors()[0].0, anchors()[0].1);
    let one = offered(with_hops, anchors()[0].0, anchors()[0].1);
    lemma_offered_keeps_distinct(one, anchors()[1].0, anchors()[1].1);
    let two = offered(one, anchors()[1].0, anchors()[1].1);
    lemma_prefix_keeps_address(one, two, "1.1.1.1"@);
    match extras {
        Some(s) => {
            lemma_offer_extras(two, comma_pieces(s, 0));
            let all = offer_extras(two, comma_pieces(s, 0));
            lemma_prefix_keeps_address(two, all, "1.1.1.1"@);
            lemma_prefix_keeps_address(two, all, "8.8.8.8"@);
        },
        None => {},
    }
}

/// A detected gateway is always the first target, named "gateway" and
/// pinged at its address, whatever the hops and the extra targets are;
/// without a gateway the first target is the first responding hop, or the
/// first anchor when no hop responded.
pub proof fn law_gateway_first(gateway: Option<IpAddr>, hops: Seq<Hop>, extras: Option<Seq<char>>)
    ensures
        target_plan(gateway, hops, extras).len() >= 2,
        gateway matches Some(ip) ==> target_plan(gateway, hops, extras)[0] == ("gateway"@, ip_text(
            ip,
        )),
        gateway is None && (forall|k: int| 0 <= k < hops.len() ==> (#[trigger] hops[k]).1 is None)
            ==> target_plan(gateway, hops, extras)[0] == anchors()[0],
{
    let empty = Seq::<(Seq<char>, Seq<char>)>::empty();
    let with_gateway = match gateway {
        Some(ip) => offered(empty, "gateway"@, ip_text(ip)),
        None => empty,
    };
    if let Some(ip) = gateway {
        lemma_ip_text_nonempty(ip);
        lemma_offered_keeps_distinct(empty, "gateway"@, ip_text(ip));
        assert(!has_address(empty, ip_text(ip)));
        assert(with_gateway == seq![("gateway"@, ip_text(ip))]);
    }
    lemma_offer_hops(with_gateway, hops);
    let with_hops = offer_hops(with_gateway, hops);
    if gateway is None && (forall|k: int| 0 <= k < hops.len() ==> (#[trigger] hops[k]).1 is None) {
        lemma_silent_hops(hops);
    }
    reveal_strlit("1.1.1.1");
    reveal_strlit("8.8.8.8");
    lemma_offered_keeps_distinct(with_hops, anchors()[0].0, anchors()[0].1);
    let one = offered(with_hops, anchors()[0].0, anchors()[0].1);
    lemma_offered_keeps_distinct(one, anchors()[1].0, anchors()[1].1);
    let two = offered(one, anchors()[1].0, anchors()[1].1);
    assert(has_address(two, "1.1.1.1"@));
    assert(has_address(two, "8.8.8.8"@));
    assert("1.1.1.1"@[0] != "8.8.8.8"@[0]);
    lemma_two_addresses(two, "1.1.1.1"@, "8.8.8.8"@);
    if with_hops.len() == 0 {
        assert(!has_address(with_hops, "1.1.1.1"@));
        assert(one == seq![anchors()[0]]);
        assert(two.take(1) == one);
        assert(two[0] == two.take(1)[0]);
    } else {
        assert(one.take(with_hops.len() as int) == with_hops);
        assert(two.take(one.len() as int) == one);
        assert(two[0] == two.take(one.len() as int)[0]);
        assert(one[0] == one.take(with_hops.len() as int)[0]);
        if let Some(ip) = gateway {
            assert(with_hops.take(1) == with_gateway);
            assert(with_hops[0] == with_hops.take(1)[0]);
        }
    }
    match extras {
        Some(x) => {
            lemma_offer_extras(two, comma_pieces(x, 0));
            let all = offer_extras(two, comma_pieces(x, 0));
            assert(all.take(two.len() as int) == two);
            assert(all[0] == all.take(two.len() as int)[0]);
        },
        None => {},
    }
}

/// Offering hops none of which responded changes nothing.
proof fn lemma_silent_hops(hops: Seq<Hop>)
    requires
        forall|k: int| 0 <= k < hops.len() ==> (#[trigger] hops[k]).1 is None,
    ensures
        offer_hops(Seq::<(Seq<char>, Seq<char>)>::empty(), hops).len() == 0,
    decreases hops.len(),
{
    if hops.len() > 0 {
        let d = hops.drop_last();
        assert forall|k: int| 0 <= k < d.len() implies (#[trigger] d[k]).1 is None by {
            assert(d[k] == hops[k]);
        }
        lemma_silent_hops(d);
        assert(hops.last() == hops[hops.len() - 1]);
    }
}

/// A list holding two different addresses has at least two entries.
proof fn lemma_two_addresses(l: Seq<(Seq<char>, Seq<char>)>, a: Seq<char>, b: Seq<char>)
    requires
        has_address(l, a),
        has_address(l, b),
        a != b,
    ensures
        l.len() >= 2,
{
    let i = choose|i: int| 0 <= i < l.len() && #[trigger] l[i].1 == a;
    let j = choose|j: int| 0 <= j < l.len() && #[trigger] l[j].1 == b;
    assert(i != j);
}

} // verus!
