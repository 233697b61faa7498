//! Laws of the memory of graphics cards.
use vstd::prelude::*;

use crate::drm;
use crate::drm::ClientView;
use crate::laws::texts;
use crate::table;
use crate::text;

verus! {

/// A figure of each client that is meant, and nought for the others.
pub open spec fn figures(
    clients: Seq<ClientView>,
    n: nat,
    meant: spec_fn(ClientView) -> bool,
    what: spec_fn(ClientView) -> int,
) -> Seq<int> {
    Seq::new(
        n,
        |i: int|
            if meant(clients[i]) {
                what(clients[i])
            } else {
                0
            },
    )
}

proof fn lemma_figures(
    clients: Seq<ClientView>,
    n: nat,
    meant: spec_fn(ClientView) -> bool,
    what: spec_fn(ClientView) -> int,
)
    requires
        0 < n <= clients.len(),
    ensures
        texts::sum(figures(clients, n, meant, what)) == texts::sum(
            figures(clients, (n - 1) as nat, meant, what),
        ) + if meant(clients[n - 1]) {
            what(clients[n - 1])
        } else {
            0
        },
{
    let less = figures(clients, (n - 1) as nat, meant, what);
    let last = if meant(clients[n - 1]) {
        what(clients[n - 1])
    } else {
        0
    };
    texts::lemma_sum_push(less, last);
    assert(figures(clients, n, meant, what) =~= less.push(last));
}

/// What is allocated, and what lies on the cards, is the sum over the clients of what each has;
/// and what a process has there is the sum over those that are its own.
pub proof fn memory_is_the_sum_over_the_clients(clients: Seq<ClientView>, n: nat, pid: i32)
    requires
        n <= clients.len(),
    ensures
        drm::total_of(clients, n, false) == texts::sum(
            figures(clients, n, |c: ClientView| true, |c: ClientView| c.allocated_bytes as int),
        ),
        drm::total_of(clients, n, true) == texts::sum(
            figures(clients, n, |c: ClientView| true, |c: ClientView| c.resident_bytes as int),
        ),
        drm::pid_resident(clients, n, pid) == texts::sum(
            figures(clients, n, |c: ClientView| c.pid == pid, |c: ClientView| c.resident_bytes as int),
        ),
    decreases n,
{
    if n > 0 {
        memory_is_the_sum_over_the_clients(clients, (n - 1) as nat, pid);
        lemma_figures(
            clients,
            n,
            |c: ClientView| true,
            |c: ClientView| c.allocated_bytes as int,
        );
        lemma_figures(clients, n, |c: ClientView| true, |c: ClientView| c.resident_bytes as int);
        lemma_figures(
            clients,
            n,
            |c: ClientView| c.pid == pid,
            |c: ClientView| c.resident_bytes as int,
        );
    }
}

/// What lies on a card is the sum over its own clients; a card without a client is not listed.
pub proof fn cards_hold_what_their_clients_do(clients: Seq<ClientView>, n: nat, pdev: Seq<char>)
    requires
        n <= clients.len(),
    ensures
        table::ordered(drm::device_resident(clients, n)),
        match table::lookup(drm::device_resident(clients, n), pdev) {
            Some(k) => k == texts::sum(
                figures(
                    clients,
                    n,
                    |c: ClientView| c.pdev == pdev,
                    |c: ClientView| c.resident_bytes as int,
                ),
            ),
            None => forall|i: int| 0 <= i < n ==> (#[trigger] clients[i]).pdev != pdev,
        },
        (forall|i: int| 0 <= i < n ==> (#[trigger] clients[i]).pdev != pdev) ==> texts::sum(
            figures(
                clients,
                n,
                |c: ClientView| c.pdev == pdev,
                |c: ClientView| c.resident_bytes as int,
            ),
        ) == 0,
    decreases n,
{
    if n > 0 {
        cards_hold_what_their_clients_do(clients, (n - 1) as nat, pdev);
        lemma_figures(
            clients,
            n,
            |c: ClientView| c.pdev == pdev,
            |c: ClientView| c.resident_bytes as int,
        );
        let earlier = drm::device_resident(clients, (n - 1) as nat);
        let c = clients[n - 1];
        let held = match table::lookup(earlier, c.pdev) {
            Some(k) => k,
            None => 0,
        };
        table::put_keeps_order(earlier, c.pdev, held + c.resident_bytes as nat);
        table::put_then_lookup(earlier, c.pdev, held + c.resident_bytes as nat, pdev);
    }
}

/// A size is its number, or so many of the unit behind it: bytes, or each a thousand and
/// twenty-four of the one before. Another unit, or no number, gives none.
pub proof fn sizes_are_counted_in_their_unit(value: Seq<char>, n: u64)
    requires
        text::words_of(value).len() > 0,
        text::words_of(value)[0] == text::decimal_of(n as nat),
    ensures
        ({
            let words = text::words_of(value);
            &&& words.len() == 1 ==> drm::size_of(value) == Some(n as nat)
            &&& words.len() > 1 && words[1] == "B"@ ==> drm::size_of(value) == Some(n as nat)
            &&& words.len() > 1 && words[1] == "KiB"@ ==> drm::size_of(value) == Some(
                (1024 * n) as nat,
            )
            &&& words.len() > 1 && words[1] == "MiB"@ ==> drm::size_of(value) == Some(
                (1024 * (1024 * n)) as nat,
            )
            &&& words.len() > 1 && words[1] == "GiB"@ ==> drm::size_of(value) == Some(
                (1024 * (1024 * (1024 * n))) as nat,
            )
            &&& words.len() > 1 && words[1] != "B"@ && words[1] != "KiB"@ && words[1] != "MiB"@
                && words[1] != "GiB"@ ==> drm::size_of(value) is None
        }),
{
    texts::decimals_read_back(n);
    reveal_strlit("B");
    reveal_strlit("KiB");
    reveal_strlit("MiB");
    reveal_strlit("GiB");
    assert("B"@.len() == 1 && "KiB"@.len() == 3);
    assert("KiB"@[0] == 'K' && "MiB"@[0] == 'M' && "GiB"@[0] == 'G');
    let words = text::words_of(value);
    if words.len() > 1 {
        match drm::unit_of(words[1]) {
            Some(unit) => {
                let m = n as nat;
                assert(m * 1024nat == 1024 * m) by (nonlinear_arith);
                assert(m * 1_048_576nat == 1_048_576 * m) by (nonlinear_arith);
                assert(m * 1_073_741_824nat == 1_073_741_824 * m) by (nonlinear_arith);
                assert(m * 1nat == m) by (nonlinear_arith);
            },
            None => {},
        }
    }
}

/// The sizes of the fields that count memory on the card itself, and nought for the others.
pub open spec fn local_sizes(
    fields: Seq<(Seq<char>, Seq<char>)>,
    prefix: Seq<char>,
    n: nat,
) -> Seq<int> {
    Seq::new(
        n,
        |i: int|
            if on_the_card(fields[i].0, prefix) {
                match drm::size_of(fields[i].1) {
                    Some(k) => k as int,
                    None => 0,
                }
            } else {
                0
            },
    )
}

/// Whether a field counts memory on the card: behind the prefix it goes on with `vram` or
/// `local`.
pub open spec fn on_the_card(key: Seq<char>, prefix: Seq<char>) -> bool {
    (prefix + "vram"@).is_prefix_of(key) || (prefix + "local"@).is_prefix_of(key)
}

proof fn lemma_on_the_card(key: Seq<char>, prefix: Seq<char>, region: Seq<char>)
    ensures
        (prefix + region).is_prefix_of(key) <==> prefix.is_prefix_of(key) && region.is_prefix_of(
            key.skip(prefix.len() as int),
        ),
{
    let both = prefix + region;
    let p = prefix.len() as int;
    if both.is_prefix_of(key) {
        assert(prefix =~= key.take(p)) by {
            assert forall|i: int| 0 <= i < p implies prefix[i] == key[i] by {
                assert(both[i] == key.take(both.len() as int)[i]);
            }
        }
        assert(region =~= key.skip(p).take(region.len() as int)) by {
            assert forall|i: int| 0 <= i < region.len() implies region[i] == key.skip(p)[i] by {
                assert(both[p + i] == key.take(both.len() as int)[p + i]);
            }
        }
    }
    if prefix.is_prefix_of(key) && region.is_prefix_of(key.skip(p)) {
        assert(both =~= key.take(both.len() as int)) by {
            assert forall|i: int| 0 <= i < both.len() implies both[i] == key[i] by {
                if i < p {
                    assert(prefix[i] == key.take(p)[i]);
                } else {
                    assert(region[i - p] == key.skip(p).take(region.len() as int)[i - p]);
                }
            }
        }
    }
}

/// What a client has on its card is the sum of the sizes of its fields that count memory there.
pub proof fn memory_on_the_card_is_summed(
    fields: Seq<(Seq<char>, Seq<char>)>,
    prefix: Seq<char>,
    n: nat,
)
    requires
        n <= fields.len(),
    ensures
        drm::local_of(fields, prefix, n) == texts::sum(local_sizes(fields, prefix, n)),
    decreases n,
{
    if n > 0 {
        memory_on_the_card_is_summed(fields, prefix, (n - 1) as nat);
        let less = local_sizes(fields, prefix, (n - 1) as nat);
        let all = local_sizes(fields, prefix, n);
        lemma_on_the_card(fields[n - 1].0, prefix, "vram"@);
        lemma_on_the_card(fields[n - 1].0, prefix, "local"@);
        texts::lemma_sum_push(less, all[n - 1]);
        assert(all =~= less.push(all[n - 1]));
    }
}

} // verus!
