//! Memory of graphics cards, as the kernel reports it for each client of a device.
//!
//! There is no counter for a whole card: its total is the sum over its clients. A
//! client normally holds its buffers open on many file descriptors, so that clients
//! are counted once by device and client number.
use vstd::prelude::*;

use crate::process::TooLarge;
use crate::table;
use crate::table::Table;
use crate::text;

verus! {

/// What one client holds in device memory.
pub struct DrmClient {
    pub pid: i32,
    pub comm: String,
    /// The PCI address, such as `0000:03:00.0`.
    pub pdev: String,
    /// What the client has allocated. An allocation that is evicted now can be
    /// brought back, so that this is the number to go by when memory is planned.
    pub allocated_bytes: u64,
    /// What lies on the card now.
    pub resident_bytes: u64,
}

#[verifier::ext_equal]
pub ghost struct ClientView {
    pub pid: i32,
    pub comm: Seq<char>,
    pub pdev: Seq<char>,
    pub allocated_bytes: u64,
    pub resident_bytes: u64,
}

impl View for DrmClient {
    type V = ClientView;

    open spec fn view(&self) -> ClientView {
        ClientView {
            pid: self.pid,
            comm: self.comm@,
            pdev: self.pdev@,
            allocated_bytes: self.allocated_bytes,
            resident_bytes: self.resident_bytes,
        }
    }
}

pub struct DrmMemory {
    pub clients: Vec<DrmClient>,
}

pub open spec fn client_views(clients: Seq<DrmClient>) -> Seq<ClientView> {
    clients.map_values(|c: DrmClient| c@)
}

impl View for DrmMemory {
    type V = Seq<ClientView>;

    open spec fn view(&self) -> Seq<ClientView> {
        client_views(self.clients@)
    }
}

/// What a client counts for: what it has allocated, or what of that lies on the
/// card.
pub open spec fn bytes_in(c: ClientView, resident: bool) -> nat {
    if resident {
        c.resident_bytes as nat
    } else {
        c.allocated_bytes as nat
    }
}

/// What the first `n` clients hold together.
pub open spec fn total_of(clients: Seq<ClientView>, n: nat, resident: bool) -> nat
    decreases n,
{
    if n == 0 {
        0
    } else {
        total_of(clients, (n - 1) as nat, resident) + bytes_in(clients[n - 1], resident)
    }
}

/// What the first `n` clients that belong to a process have on the card.
pub open spec fn pid_resident(clients: Seq<ClientView>, n: nat, pid: i32) -> nat
    decreases n,
{
    if n == 0 {
        0
    } else {
        pid_resident(clients, (n - 1) as nat, pid) + if clients[n - 1].pid == pid {
            clients[n - 1].resident_bytes as nat
        } else {
            0
        }
    }
}

/// What the first `n` clients have on each card.
pub open spec fn device_resident(clients: Seq<ClientView>, n: nat) -> Seq<(Seq<char>, nat)>
    decreases n,
{
    if n == 0 {
        seq![]
    } else {
        let earlier = device_resident(clients, (n - 1) as nat);
        let c = clients[n - 1];
        let held = match table::lookup(earlier, c.pdev) {
            Some(k) => k,
            None => 0,
        };
        table::put(earlier, c.pdev, held + c.resident_bytes as nat)
    }
}

/// Whether what every card holds can be counted.
pub open spec fn devices_fit(clients: Seq<ClientView>) -> bool {
    forall|n: nat, i: int|
        n <= clients.len() && 0 <= i < device_resident(clients, n).len()
            ==> (#[trigger] device_resident(clients, n)[i]).1 <= u64::MAX
}

/// A number as a number without bounds, as a function.
pub open spec fn to_nat() -> spec_fn(u64) -> nat {
    |n: u64| n as nat
}

proof fn lemma_total_grows(clients: Seq<ClientView>, n: nat, more: nat, resident: bool)
    requires
        n <= more,
    ensures
        total_of(clients, n, resident) <= total_of(clients, more, resident),
    decreases more,
{
    if n < more {
        lemma_total_grows(clients, n, (more - 1) as nat, resident);
    }
}

proof fn lemma_pid_grows(clients: Seq<ClientView>, n: nat, more: nat, pid: i32)
    requires
        n <= more,
    ensures
        pid_resident(clients, n, pid) <= pid_resident(clients, more, pid),
    decreases more,
{
    if n < more {
        lemma_pid_grows(clients, n, (more - 1) as nat, pid);
    }
}

fn total(clients: &Vec<DrmClient>, resident: bool) -> (out: Option<u64>)
    ensures
        ({
            let sum = total_of(client_views(clients@), clients@.len(), resident);
            match out {
                Some(n) => n == sum,
                None => sum > u64::MAX,
            }
        }),
{
    let ghost all = client_views(clients@);
    let mut sum: u64 = 0;
    let mut i: usize = 0;
    while i < clients.len()
        invariant
            i <= clients@.len(),
            all == client_views(clients@),
            sum == total_of(all, i as nat, resident),
        decreases clients@.len() - i,
    {
        proof {
            assert(all[i as int] == clients@[i as int]@);
            lemma_total_grows(all, (i + 1) as nat, all.len(), resident);
        }
        let more: u64 = if resident {
            clients[i].resident_bytes
        } else {
            clients[i].allocated_bytes
        };
        sum =
        match sum.checked_add(more) {
            Some(n) => n,
            None => return None,
        };
        i += 1;
    }
    Some(sum)
}

impl DrmMemory {
    /// Whether what is allocated and what lies on the cards can be counted.
    pub fn countable(&self) -> (yes: bool)
        ensures
            yes == (total_of(self@, self@.len(), false) <= u64::MAX && total_of(
                self@,
                self@.len(),
                true,
            ) <= u64::MAX),
    {
        total(&self.clients, false).is_some() && total(&self.clients, true).is_some()
    }

    /// What is allocated by all clients on all devices: the number to plan by.
    pub fn total_allocated(&self) -> (out: u64)
        requires
            total_of(self@, self@.len(), false) <= u64::MAX,
        ensures
            out == total_of(self@, self@.len(), false),
    {
        match total(&self.clients, false) {
            Some(n) => n,
            None => 0,
        }
    }

    /// What lies on all cards now.
    pub fn total_resident(&self) -> (out: u64)
        requires
            total_of(self@, self@.len(), true) <= u64::MAX,
        ensures
            out == total_of(self@, self@.len(), true),
    {
        match total(&self.clients, true) {
            Some(n) => n,
            None => 0,
        }
    }

    /// What lies on each card, by its PCI address.
    pub fn per_device(&self) -> (out: Table<u64>)
        requires
            devices_fit(self@),
        ensures
            table::mapped(out@, to_nat()) == device_resident(self@, self@.len()),
    {
        let ghost all = self@;
        let mut out: Table<u64> = Table::new();
        proof {
            assert(table::mapped(out@, to_nat()) =~= seq![]);
        }
        let mut i: usize = 0;
        while i < self.clients.len()
            invariant
                i <= self.clients@.len(),
                all == self@,
                devices_fit(all),
                table::mapped(out@, to_nat()) == device_resident(all, i as nat),
            decreases self.clients@.len() - i,
        {
            let c: &DrmClient = &self.clients[i];
            proof {
                assert(all[i as int] == c@);
                table::lemma_mapped_lookup(out@, to_nat(), c.pdev@);
                lemma_device_ordered(all, i as nat);
                lemma_device_ordered(all, (i + 1) as nat);
                let earlier = device_resident(all, i as nat);
                let held = match table::lookup(earlier, c.pdev@) {
                    Some(k) => k,
                    None => 0,
                };
                let sum = held + c.resident_bytes as nat;
                let new = device_resident(all, (i + 1) as nat);
                table::put_then_lookup(earlier, c.pdev@, sum, c.pdev@);
                let p = table::key_differs::<nat>(c.pdev@);
                text::lemma_run(new, p);
                let at = text::run(new, p) as int;
                assert(new[at].1 == sum);
                assert(device_resident(all, (i + 1) as nat)[at].1 <= u64::MAX);
            }
            let held: u64 = match out.get(c.pdev.as_str()) {
                Some(n) => *n,
                None => 0,
            };
            let sum: u64 = held + c.resident_bytes;
            proof {
                table::lemma_mapped_put(out@, to_nat(), c.pdev@, sum);
            }
            out.insert(c.pdev.clone(), sum);
            i += 1;
        }
        out
    }

    /// What a process has on all cards.
    pub fn for_pid(&self, pid: i32) -> (out: u64)
        requires
            pid_resident(self@, self@.len(), pid) <= u64::MAX,
        ensures
            out == pid_resident(self@, self@.len(), pid),
    {
        let ghost all = self@;
        let mut sum: u64 = 0;
        let mut i: usize = 0;
        while i < self.clients.len()
            invariant
                i <= self.clients@.len(),
                all == self@,
                pid_resident(all, all.len(), pid) <= u64::MAX,
                sum == pid_resident(all, i as nat, pid),
            decreases self.clients@.len() - i,
        {
            proof {
                assert(all[i as int] == self.clients@[i as int]@);
                lemma_pid_grows(all, (i + 1) as nat, all.len(), pid);
            }
            if self.clients[i].pid == pid {
                sum += self.clients[i].resident_bytes;
            }
            i += 1;
        }
        sum
    }
}

proof fn lemma_device_ordered(clients: Seq<ClientView>, n: nat)
    ensures
        table::ordered(device_resident(clients, n)),
    decreases n,
{
    if n > 0 {
        lemma_device_ordered(clients, (n - 1) as nat);
        let earlier = device_resident(clients, (n - 1) as nat);
        let c = clients[n - 1];
        let held = match table::lookup(earlier, c.pdev) {
            Some(k) => k,
            None => 0,
        };
        table::put_keeps_order(earlier, c.pdev, held + c.resident_bytes as nat);
    }
}

/// The sum of what stands in a table.
pub open spec fn sum_values(list: Seq<(Seq<char>, nat)>) -> nat
    decreases list.len(),
{
    if list.len() == 0 {
        0
    } else {
        list[0].1 + sum_values(list.skip(1))
    }
}

proof fn lemma_sum_put(list: Seq<(Seq<char>, nat)>, key: Seq<char>, value: nat)
    requires
        table::ordered(list),
    ensures
        sum_values(table::put(list, key, value)) == sum_values(list) - (match table::lookup(
            list,
            key,
        ) {
            Some(k) => k,
            None => 0,
        }) + value,
    decreases list.len(),
{
    let p = table::key_differs::<nat>(key);
    let new = table::put(list, key, value);
    if list.len() == 0 {
        assert(new.skip(1) =~= list);
    } else if list[0].0 == key {
        text::lemma_run_unique(list, p, 0);
        assert(new.skip(1) =~= list.skip(1));
    } else if text::before(key, list[0].0) {
        assert(new.skip(1) =~= list);
        assert forall|i: int| 0 <= i < list.len() implies p(#[trigger] list[i]) by {
            if list[i].0 == key {
                assert(text::before(list[0].0, list[i].0));
                text::lemma_before_transitive(key, list[0].0, key);
                text::lemma_before_irreflexive(key);
            }
        }
        text::lemma_run_unique(list, p, list.len() as int);
    } else {
        let rest = list.skip(1);
        assert(table::ordered(rest)) by {
            assert forall|i: int, j: int| 0 <= i < j < rest.len() implies text::before(
                #[trigger] rest[i].0,
                #[trigger] rest[j].0,
            ) by {
                assert(text::before(list[i + 1].0, list[j + 1].0));
            }
        }
        lemma_sum_put(rest, key, value);
        assert(new.skip(1) =~= table::put(rest, key, value));
        text::lemma_run(rest, p);
        let at = text::run(rest, p) as int;
        assert forall|i: int| 0 <= i < at + 1 implies p(#[trigger] list[i]) by {
            if i > 0 {
                assert(p(rest[i - 1]));
            }
        }
        if at < rest.len() {
            assert(!p(rest[at]));
            assert(list[at + 1] == rest[at]);
        }
        text::lemma_run_unique(list, p, at + 1);
    }
}

/// What lies on the cards one by one is what lies on all of them together.
pub proof fn devices_add_up(clients: Seq<ClientView>, n: nat)
    requires
        n <= clients.len(),
    ensures
        sum_values(device_resident(clients, n)) == total_of(clients, n, true),
    decreases n,
{
    if n > 0 {
        devices_add_up(clients, (n - 1) as nat);
        lemma_device_ordered(clients, (n - 1) as nat);
        let earlier = device_resident(clients, (n - 1) as nat);
        let c = clients[n - 1];
        let held = match table::lookup(earlier, c.pdev) {
            Some(k) => k,
            None => 0,
        };
        lemma_sum_put(earlier, c.pdev, held + c.resident_bytes as nat);
    }
}

proof fn lemma_part_of_sum(list: Seq<(Seq<char>, nat)>, i: int)
    requires
        0 <= i < list.len(),
    ensures
        list[i].1 <= sum_values(list),
    decreases list.len(),
{
    if i > 0 {
        lemma_part_of_sum(list.skip(1), i - 1);
        assert(list.skip(1)[i - 1] == list[i]);
    }
}

proof fn lemma_pid_below_total(clients: Seq<ClientView>, n: nat, pid: i32)
    ensures
        pid_resident(clients, n, pid) <= total_of(clients, n, true),
    decreases n,
{
    if n > 0 {
        lemma_pid_below_total(clients, (n - 1) as nat, pid);
    }
}

/// Where all that lies on the cards can be counted, so can what a process has there and
/// what lies on each card.
pub proof fn parts_fit_where_the_whole_does(clients: Seq<ClientView>, pid: i32)
    requires
        total_of(clients, clients.len(), true) <= u64::MAX,
    ensures
        pid_resident(clients, clients.len(), pid) <= u64::MAX,
        devices_fit(clients),
{
    lemma_pid_below_total(clients, clients.len(), pid);
    assert forall|n: nat, i: int|
        n <= clients.len() && 0 <= i < device_resident(clients, n).len() implies (
    #[trigger] device_resident(clients, n)[i]).1 <= u64::MAX by {
        lemma_part_of_sum(device_resident(clients, n), i);
        devices_add_up(clients, n);
        lemma_total_grows(clients, n, clients.len(), true);
    }
}

/// How many bytes a unit stands for.
pub open spec fn unit_of(s: Seq<char>) -> Option<nat> {
    if s == "B"@ {
        Some(1)
    } else if s == "KiB"@ {
        Some(1024)
    } else if s == "MiB"@ {
        Some(1_048_576)
    } else if s == "GiB"@ {
        Some(1_073_741_824)
    } else {
        None
    }
}

/// A size in bytes: a number, bare or with a unit behind it. A unit that is not
/// known gives none, so that it is not taken for bytes.
pub open spec fn size_of(value: Seq<char>) -> Option<nat> {
    let words = text::words_of(value);
    if words.len() == 0 {
        None
    } else {
        match text::u64_of(words[0]) {
            None => None,
            Some(n) => if words.len() == 1 {
                Some(n as nat)
            } else {
                match unit_of(words[1]) {
                    Some(unit) => Some(n as nat * unit),
                    None => None,
                }
            },
        }
    }
}

fn unit(s: &str) -> (out: Option<u64>)
    ensures
        match (out, unit_of(s@)) {
            (Some(a), Some(b)) => a == b,
            (None, None) => true,
            _ => false,
        },
{
    if text::same(s, "B") {
        Some(1)
    } else if text::same(s, "KiB") {
        Some(1024)
    } else if text::same(s, "MiB") {
        Some(1_048_576)
    } else if text::same(s, "GiB") {
        Some(1_073_741_824)
    } else {
        None
    }
}

/// The size that a value states, where it can be held; else that it is too large.
fn sized(value: &str) -> (out: Result<Option<u64>, TooLarge>)
    ensures
        match (out, size_of(value@)) {
            (Ok(Some(a)), Some(b)) => a == b,
            (Ok(None), None) => true,
            (Err(_), Some(b)) => b > u64::MAX,
            _ => false,
        },
{
    let words: Vec<String> = text::words(value);
    proof {
        assert(text::views(words@).len() == words@.len());
    }
    if words.len() == 0 {
        return Ok(None);
    }
    proof {
        assert(text::views(words@)[0] == words@[0]@);
    }
    let n: u64 = match text::parse_u64(words[0].as_str()) {
        Some(n) => n,
        None => return Ok(None),
    };
    if words.len() == 1 {
        return Ok(Some(n));
    }
    proof {
        assert(text::views(words@)[1] == words@[1]@);
    }
    match unit(words[1].as_str()) {
        Some(scale) => match n.checked_mul(scale) {
            Some(product) => Ok(Some(product)),
            None => Err(TooLarge),
        },
        None => Ok(None),
    }
}

/// The size that a value of the kernel states.
pub fn parse_size(value: &str) -> (out: Option<u64>)
    requires
        size_of(value@) matches Some(n) ==> n <= u64::MAX,
    ensures
        match (out, size_of(value@)) {
            (Some(a), Some(b)) => a == b,
            (None, None) => true,
            _ => false,
        },
{
    match sized(value) {
        Ok(size) => size,
        Err(_) => None,
    }
}

/// A text as its characters, as a function.
pub open spec fn to_chars() -> spec_fn(String) -> Seq<char> {
    |s: String| s@
}

/// The fields of a client's report.
pub open spec fn fields_of(t: Table<String>) -> Seq<(Seq<char>, Seq<char>)> {
    table::mapped(t@, to_chars())
}

/// Whether a field counts memory on a card: behind the prefix stands a region on
/// it. Other regions are memory of the host.
pub open spec fn is_local(key: Seq<char>, prefix: Seq<char>) -> bool {
    prefix.is_prefix_of(key) && ("vram"@.is_prefix_of(key.skip(prefix.len() as int))
        || "local"@.is_prefix_of(key.skip(prefix.len() as int)))
}

/// What the first `n` fields count on a card.
pub open spec fn local_of(fields: Seq<(Seq<char>, Seq<char>)>, prefix: Seq<char>, n: nat) -> nat
    decreases n,
{
    if n == 0 {
        0
    } else {
        local_of(fields, prefix, (n - 1) as nat) + if is_local(fields[n - 1].0, prefix) {
            match size_of(fields[n - 1].1) {
                Some(k) => k,
                None => 0,
            }
        } else {
            0
        }
    }
}

proof fn lemma_local_grows(
    fields: Seq<(Seq<char>, Seq<char>)>,
    prefix: Seq<char>,
    n: nat,
    more: nat,
)
    requires
        n <= more,
    ensures
        local_of(fields, prefix, n) <= local_of(fields, prefix, more),
    decreases more,
{
    if n < more {
        lemma_local_grows(fields, prefix, n, (more - 1) as nat);
    }
}

fn local(key: &str, prefix: &str) -> (yes: bool)
    ensures
        yes == is_local(key@, prefix@),
{
    if !text::starts_with(key, prefix) {
        return false;
    }
    let chars: Vec<char> = text::chars_of(key);
    let at: usize = text::chars_of(prefix).len();
    let region: String = text::part_text(chars.as_slice(), at, chars.len());
    proof {
        assert(key@.subrange(at as int, key@.len() as int) =~= key@.skip(at as int));
    }
    text::starts_with(region.as_str(), "vram") || text::starts_with(region.as_str(), "local")
}

/// What a client's report counts on a card, where that can be held.
pub fn local_bytes(fields: &Table<String>, prefix: &str) -> (out: Result<u64, TooLarge>)
    ensures
        ({
            let sum = local_of(fields_of(*fields), prefix@, fields@.len());
            match out {
                Ok(n) => n == sum,
                Err(_) => sum > u64::MAX,
            }
        }),
{
    let ghost all = fields_of(*fields);
    let mut sum: u64 = 0;
    let mut i: usize = 0;
    while i < fields.len()
        invariant
            i <= fields@.len(),
            all == fields_of(*fields),
            sum == local_of(all, prefix@, i as nat),
        decreases fields@.len() - i,
    {
        proof {
            assert(all[i as int] == (fields@[i as int].0, fields@[i as int].1@));
            lemma_local_grows(all, prefix@, (i + 1) as nat, all.len());
        }
        if local(fields.key_at(i), prefix) {
            match sized(fields.value_at(i).as_str()) {
                Ok(Some(n)) => {
                    sum =
                    match sum.checked_add(n) {
                        Some(total) => total,
                        None => return Err(TooLarge),
                    };
                },
                Ok(None) => {},
                Err(e) => return Err(e),
            }
        }
        i += 1;
    }
    Ok(sum)
}

/// What a client's report counts on a card: `drm-total-` before a region for what
/// is allocated, `drm-resident-` for what lies there.
pub fn device_local_bytes(fields: &Table<String>, prefix: &str) -> (out: u64)
    requires
        local_of(fields_of(*fields), prefix@, fields@.len()) <= u64::MAX,
    ensures
        out == local_of(fields_of(*fields), prefix@, fields@.len()),
{
    match local_bytes(fields, prefix) {
        Ok(n) => n,
        Err(_) => 0,
    }
}

/// The fields on the first `n` lines of a report: what stands before and behind the
/// first colon; the later of two with one name stays.
pub open spec fn fields_on(lines: Seq<Seq<char>>, n: nat) -> Seq<(Seq<char>, Seq<char>)>
    decreases n,
{
    if n == 0 {
        seq![]
    } else {
        let earlier = fields_on(lines, (n - 1) as nat);
        match text::split_once_of(lines[n - 1], ':') {
            Some((key, value)) => table::put(
                earlier,
                text::trim_of(key),
                text::trim_of(value),
            ),
            None => earlier,
        }
    }
}

/// The fields of a report.
pub fn read_fdinfo(report: &str) -> (out: Table<String>)
    ensures
        fields_of(out) == fields_on(text::lines_of(report@), text::lines_of(report@).len()),
{
    let lines: Vec<String> = text::lines(report);
    let ghost all = text::views(lines@);
    let mut out: Table<String> = Table::new();
    proof {
        assert(table::mapped(out@, to_chars()) =~= seq![]);
    }
    let mut i: usize = 0;
    while i < lines.len()
        invariant
            i <= lines@.len(),
            all == text::views(lines@),
            fields_of(out) == fields_on(all, i as nat),
        decreases lines@.len() - i,
    {
        proof {
            assert(all[i as int] == lines@[i as int]@);
        }
        match text::split_once(lines[i].as_str(), ':') {
            Some((key, value)) => {
                let name: String = text::trim(key.as_str());
                let content: String = text::trim(value.as_str());
                proof {
                    table::lemma_mapped_put(out@, to_chars(), name@, content);
                }
                out.insert(name, content);
            },
            None => {},
        }
        i += 1;
    }
    out
}

/// One report of a process: which process, its name, and the fields.
pub struct Report {
    pub pid: i32,
    pub comm: String,
    pub fields: Table<String>,
}

#[verifier::ext_equal]
pub ghost struct ReportView {
    pub pid: i32,
    pub comm: Seq<char>,
    pub fields: Seq<(Seq<char>, Seq<char>)>,
}

impl View for Report {
    type V = ReportView;

    open spec fn view(&self) -> ReportView {
        ReportView { pid: self.pid, comm: self.comm@, fields: fields_of(self.fields) }
    }
}

pub open spec fn report_views(list: Seq<Report>) -> Seq<ReportView> {
    list.map_values(|r: Report| r@)
}

/// The client that a report is of: its device and its number there.
pub open spec fn client_of(r: ReportView) -> Option<(Seq<char>, Seq<char>)> {
    match (table::lookup(r.fields, "drm-pdev"@), table::lookup(r.fields, "drm-client-id"@)) {
        (Some(pdev), Some(id)) => Some((pdev, id)),
        _ => None,
    }
}

pub open spec fn allocated_in(r: ReportView) -> nat {
    local_of(r.fields, "drm-total-"@, r.fields.len())
}

pub open spec fn resident_in(r: ReportView) -> nat {
    local_of(r.fields, "drm-resident-"@, r.fields.len())
}

/// Whether one of the first `n` reports is of a client.
pub open spec fn seen_before(list: Seq<ReportView>, n: nat, client: (Seq<char>, Seq<char>)) -> bool {
    exists|i: int| 0 <= i < n && client_of(#[trigger] list[i]) == Some(client)
}

/// The clients in the first `n` reports: each once, as its first report says, and
/// only those that hold something.
pub open spec fn clients_in(list: Seq<ReportView>, n: nat) -> Seq<ClientView>
    decreases n,
{
    if n == 0 {
        seq![]
    } else {
        let earlier = clients_in(list, (n - 1) as nat);
        let r = list[n - 1];
        match client_of(r) {
            Some(client) if !seen_before(list, (n - 1) as nat, client) && (allocated_in(r) > 0
                || resident_in(r) > 0) => earlier.push(
                ClientView {
                    pid: r.pid,
                    comm: r.comm,
                    pdev: client.0,
                    allocated_bytes: allocated_in(r) as u64,
                    resident_bytes: resident_in(r) as u64,
                },
            ),
            _ => earlier,
        }
    }
}

/// Whether a report counts: it is of a client, and the first one of it.
pub open spec fn counts(list: Seq<ReportView>, i: int) -> bool {
    match client_of(list[i]) {
        Some(client) => !seen_before(list, i as nat, client),
        None => false,
    }
}

/// Whether what a report says can be counted.
pub open spec fn fits(r: ReportView) -> bool {
    allocated_in(r) <= u64::MAX && resident_in(r) <= u64::MAX
}

/// Whether the first `n` reports can be collected: what those that count say fits.
pub open spec fn collectable(list: Seq<ReportView>, n: nat) -> bool {
    forall|i: int| 0 <= i < n && #[trigger] counts(list, i) ==> fits(list[i])
}

fn was_seen(seen: &Vec<(String, String)>, pdev: &str, id: &str) -> (yes: bool)
    ensures
        yes == (exists|k: int|
            0 <= k < seen@.len() && (#[trigger] seen@[k]).0@ == pdev@ && seen@[k].1@ == id@),
{
    let mut k: usize = 0;
    while k < seen.len()
        invariant
            k <= seen@.len(),
            forall|j: int|
                0 <= j < k ==> !((#[trigger] seen@[j]).0@ == pdev@ && seen@[j].1@ == id@),
        decreases seen@.len() - k,
    {
        if text::same(seen[k].0.as_str(), pdev) && text::same(seen[k].1.as_str(), id) {
            return true;
        }
        k += 1;
    }
    false
}

/// Collects the clients from all reports, in the order in which they were read.
pub fn collect(list: &Vec<Report>) -> (out: Result<DrmMemory, TooLarge>)
    ensures
        match out {
            Ok(m) => collectable(report_views(list@), list@.len()) && m@ == clients_in(
                report_views(list@),
                list@.len(),
            ),
            Err(_) => !collectable(report_views(list@), list@.len()),
        },
{
    let ghost all = report_views(list@);
    let mut clients: Vec<DrmClient> = Vec::new();
    let mut seen: Vec<(String, String)> = Vec::new();
    proof {
        assert(client_views(clients@) =~= seq![]);
    }
    let mut i: usize = 0;
    while i < list.len()
        invariant
            i <= list@.len(),
            all == report_views(list@),
            client_views(clients@) == clients_in(all, i as nat),
            collectable(all, i as nat),
            forall|k: int|
                0 <= k < seen@.len() ==> seen_before(
                    all,
                    i as nat,
                    ((#[trigger] seen@[k]).0@, seen@[k].1@),
                ),
            forall|j: int|
                0 <= j < i && client_of(#[trigger] all[j]) is Some ==> exists|k: int|
                    0 <= k < seen@.len() && ((#[trigger] seen@[k]).0@, seen@[k].1@) == client_of(
                        all[j],
                    )->Some_0,
        decreases list@.len() - i,
    {
        let r: &Report = &list[i];
        proof {
            assert(all[i as int] == r@);
            table::lemma_mapped_lookup(r.fields@, to_chars(), "drm-pdev"@);
            table::lemma_mapped_lookup(r.fields@, to_chars(), "drm-client-id"@);
            assert(r@.fields.len() == r.fields@.len());
        }
        match (r.fields.get("drm-pdev"), r.fields.get("drm-client-id")) {
            (Some(pdev), Some(id)) => {
                let ghost client = (pdev@, id@);
                let known: bool = was_seen(&seen, pdev.as_str(), id.as_str());
                proof {
                    assert(client_of(all[i as int]) == Some(client));
                    if known {
                        let k = choose|k: int|
                            0 <= k < seen@.len() && (#[trigger] seen@[k]).0@ == pdev@
                                && seen@[k].1@ == id@;
                        assert(seen_before(all, i as nat, (seen@[k].0@, seen@[k].1@)));
                        assert(seen_before(all, i as nat, client));
                    } else if seen_before(all, i as nat, client) {
                        let j = choose|j: int| 0 <= j < i && client_of(#[trigger] all[j]) == Some(client);
                        let k = choose|k: int|
                            0 <= k < seen@.len() && ((#[trigger] seen@[k]).0@, seen@[k].1@)
                                == client_of(all[j])->Some_0;
                        assert(seen@[k].0@ == pdev@ && seen@[k].1@ == id@);
                    }
                }
                proof {
                    assert(counts(all, i as int) == !known);
                }
                if !known {
                    let allocated: u64 = match local_bytes(&r.fields, "drm-total-") {
                        Ok(n) => n,
                        Err(e) => return Err(e),
                    };
                    let resident: u64 = match local_bytes(&r.fields, "drm-resident-") {
                        Ok(n) => n,
                        Err(e) => return Err(e),
                    };
                    if allocated > 0 || resident > 0 {
                        let c: DrmClient = DrmClient {
                            pid: r.pid,
                            comm: r.comm.clone(),
                            pdev: pdev.clone(),
                            allocated_bytes: allocated,
                            resident_bytes: resident,
                        };
                        let ghost before = client_views(clients@);
                        clients.push(c);
                        proof {
                            assert(client_views(clients@) =~= before.push(c@));
                        }
                    }
                    let ghost earlier = seen@;
                    let pair: (String, String) = (pdev.clone(), id.clone());
                    seen.push(pair);
                    proof {
                        assert forall|k: int| 0 <= k < seen@.len() implies seen_before(
                            all,
                            (i + 1) as nat,
                            ((#[trigger] seen@[k]).0@, seen@[k].1@),
                        ) by {
                            if k < earlier.len() {
                                assert(seen@[k] == earlier[k]);
                                assert(seen_before(all, i as nat, (earlier[k].0@, earlier[k].1@)));
                                let j = choose|j: int|
                                    0 <= j < i && client_of(#[trigger] all[j]) == Some(
                                        (earlier[k].0@, earlier[k].1@),
                                    );
                                assert(client_of(all[j]) == Some((seen@[k].0@, seen@[k].1@)));
                            } else {
                                assert(client_of(all[i as int]) == Some((seen@[k].0@, seen@[k].1@)));
                            }
                        }
                        assert forall|j: int|
                            0 <= j < i + 1 && client_of(#[trigger] all[j]) is Some implies exists|
                            k: int,
                        |
                            0 <= k < seen@.len() && ((#[trigger] seen@[k]).0@, seen@[k].1@)
                                == client_of(all[j])->Some_0 by {
                            if j < i {
                                let k = choose|k: int|
                                    0 <= k < earlier.len() && ((#[trigger] earlier[k]).0@, earlier[k].1@)
                                        == client_of(all[j])->Some_0;
                                assert(seen@[k] == earlier[k]);
                            } else {
                                assert(seen@[earlier.len() as int] == pair);
                            }
                        }
                    }
                }
            },
            _ => {
                proof {
                    assert(!counts(all, i as int));
                }
            },
        }
        proof {
            assert forall|k: int| 0 <= k < seen@.len() implies seen_before(
                all,
                (i + 1) as nat,
                ((#[trigger] seen@[k]).0@, seen@[k].1@),
            ) by {
                let c = (seen@[k].0@, seen@[k].1@);
                if seen_before(all, i as nat, c) {
                    let j = choose|j: int| 0 <= j < i && client_of(#[trigger] all[j]) == Some(c);
                    assert(client_of(all[j]) == Some(c));
                }
            }
        }
        i += 1;
    }
    Ok(DrmMemory { clients })
}

/// What was collected is what the reports say: every client's bytes are those of the first
/// report of it, as they stand there.
pub proof fn clients_are_counted_exactly(list: Seq<ReportView>, n: nat, k: int)
    requires
        n <= list.len(),
        collectable(list, n),
        0 <= k < clients_in(list, n).len(),
    ensures
        exists|i: int|
            0 <= i < n && #[trigger] counts(list, i) && {
                let c = clients_in(list, n)[k];
                &&& c.allocated_bytes == allocated_in(list[i])
                &&& c.resident_bytes == resident_in(list[i])
                &&& c.pdev == client_of(list[i])->Some_0.0
                &&& c.pid == list[i].pid
                &&& c.comm == list[i].comm
            },
    decreases n,
{
    if n > 0 {
        let earlier = clients_in(list, (n - 1) as nat);
        assert forall|i: int| 0 <= i < n - 1 && #[trigger] counts(list, i) implies fits(
            list[i],
        ) by {}
        if k < earlier.len() {
            clients_are_counted_exactly(list, (n - 1) as nat, k);
            assert(clients_in(list, n)[k] == earlier[k]);
        } else {
            assert(counts(list, n - 1));
            assert(fits(list[n - 1]));
        }
    }
}

/// Whether a name below the devices is that of a card; those of its connectors
/// have a hyphen.
pub fn is_card(name: &str) -> (yes: bool)
    ensures
        yes == ("card"@.is_prefix_of(name@) && !text::holds(name@, "-"@)),
{
    text::starts_with(name, "card") && !text::contains(name, "-")
}

/// The number that a report states, zero where it states none.
pub open spec fn stated(report: Seq<char>) -> u64 {
    match text::u64_of(text::trim_of(report)) {
        Some(n) => n,
        None => 0,
    }
}

pub open spec fn stated_total(reports: Seq<Seq<char>>, n: nat) -> nat
    decreases n,
{
    if n == 0 {
        0
    } else {
        stated_total(reports, (n - 1) as nat) + stated(reports[n - 1]) as nat
    }
}

proof fn lemma_stated_grows(reports: Seq<Seq<char>>, n: nat, more: nat)
    requires
        n <= more,
    ensures
        stated_total(reports, n) <= stated_total(reports, more),
    decreases more,
{
    if n < more {
        lemma_stated_grows(reports, n, (more - 1) as nat);
    }
}

/// The capacity of all cards, from what the driver of each states.
pub fn device_total_bytes(reports: &Vec<String>) -> (out: Result<u64, TooLarge>)
    ensures
        ({
            let sum = stated_total(text::views(reports@), reports@.len());
            match out {
                Ok(n) => n == sum,
                Err(_) => sum > u64::MAX,
            }
        }),
{
    let ghost all = text::views(reports@);
    let mut sum: u64 = 0;
    let mut i: usize = 0;
    while i < reports.len()
        invariant
            i <= reports@.len(),
            all == text::views(reports@),
            sum == stated_total(all, i as nat),
        decreases reports@.len() - i,
    {
        proof {
            assert(all[i as int] == reports@[i as int]@);
            lemma_stated_grows(all, (i + 1) as nat, all.len());
        }
        let n: u64 = match text::parse_u64(text::trim(reports[i].as_str()).as_str()) {
            Some(n) => n,
            None => 0,
        };
        sum =
        match sum.checked_add(n) {
            Some(total) => total,
            None => return Err(TooLarge),
        };
        i += 1;
    }
    Ok(sum)
}

} // verus!
