//! SubDL login leases: a key stored for a bounded time under a generated
//! file name, and the rules that decide which stored lease may be used.
use crate::clock::{chrono_rfc3339_z, rfc3339_z, within_chrono_range};
use crate::conversion::path_join;
use crate::text::{
    chars_equal_str, is_blank, is_blank_in, slices_equal, sort_texts, sorted_texts, str_chars,
    string_from_chars, strings_view,
};
use vstd::prelude::*;
use vstd::string::StringExecFns;

verus! {

/// A stored SubDL login: the key and the time span in which it may be used.
pub struct Lease {
    pub schema: String,
    pub purpose: String,
    pub issued_at: i64,
    pub expires_at: i64,
    pub api_key: String,
}

/// Why a lease request or identity is refused.
#[derive(Debug, Clone, Copy, PartialEq, Eq, Structural)]
pub enum LeaseError {
    /// `--ttl-minutes` is outside 1..=60.
    TtlOutOfRange,
    /// The key is empty or only whitespace.
    EmptyKey,
    /// The name is not one that this program generates for a lease.
    InvalidLeaseIdentity,
    /// No stored lease is currently valid.
    NoValidLease,
}

/// Longest lease lifetime, in minutes.
pub open spec fn max_ttl_minutes() -> int {
    60
}

pub open spec fn lease_schema() -> Seq<char> {
    "teamy-subs.subdl-lease/1"@
}

pub open spec fn lease_purpose() -> Seq<char> {
    "subdl-api"@
}

/// A lease may be used at time `now` when it is of this program's kind and
/// purpose, lives between one second and an hour, has started and not yet
/// expired, and holds a non-blank key.
pub open spec fn lease_valid(
    schema: Seq<char>,
    purpose: Seq<char>,
    issued_at: int,
    expires_at: int,
    api_key: Seq<char>,
    now: int,
) -> bool {
    &&& schema == lease_schema()
    &&& purpose == lease_purpose()
    &&& 1 <= expires_at - issued_at <= max_ttl_minutes() * 60
    &&& now >= issued_at
    &&& now < expires_at
    &&& !is_blank(api_key)
}

impl Lease {
    pub open spec fn valid_at(&self, now: int) -> bool {
        lease_valid(self.schema@, self.purpose@, self.issued_at as int, self.expires_at as int, self.api_key@, now)
    }

    /// Whether this lease may be used at time `now`.
    pub fn valid(&self, now: i64) -> (res: bool)
        ensures
            res == self.valid_at(now as int),
    {
        let schema = str_chars(self.schema.as_str());
        let purpose = str_chars(self.purpose.as_str());
        if !chars_equal_str(schema.as_slice(), "teamy-subs.subdl-lease/1") {
            return false;
        }
        if !chars_equal_str(purpose.as_slice(), "subdl-api") {
            return false;
        }
        let ttl = self.expires_at as i128 - self.issued_at as i128;
        if !(1 <= ttl && ttl <= 3600) {
            return false;
        }
        if !(now >= self.issued_at && now < self.expires_at) {
            return false;
        }
        let key = str_chars(self.api_key.as_str());
        assert(key@.subrange(0, key@.len() as int) =~= key@);
        !is_blank_in(key.as_slice(), 0, key.len())
    }
}

/// The lease that a store request creates at time `now`.
pub fn new_lease(api_key: String, now: i64, ttl_minutes: u32) -> (res: Lease)
    requires
        1 <= ttl_minutes <= max_ttl_minutes(),
        now + ttl_minutes * 60 <= i64::MAX,
    ensures
        res.schema@ == lease_schema(),
        res.purpose@ == lease_purpose(),
        res.issued_at == now,
        res.expires_at == now + ttl_minutes * 60,
        res.api_key@ == api_key@,
{
    Lease {
        schema: String::from_str("teamy-subs.subdl-lease/1"),
        purpose: String::from_str("subdl-api"),
        issued_at: now,
        expires_at: now + (ttl_minutes as i64) * 60,
        api_key,
    }
}

/// A store request is refused for a lifetime outside 1..=60 minutes, then
/// for a blank key.
pub fn check_store_request(api_key: &str, ttl_minutes: u32) -> (res: Result<(), LeaseError>)
    ensures
        !(1 <= ttl_minutes <= max_ttl_minutes()) ==> res == Err::<(), LeaseError>(
            LeaseError::TtlOutOfRange,
        ),
        (1 <= ttl_minutes <= max_ttl_minutes()) ==> (res == if is_blank(api_key@) {
            Err::<(), LeaseError>(LeaseError::EmptyKey)
        } else {
            Ok::<(), LeaseError>(())
        }),
{
    if !(1 <= ttl_minutes && ttl_minutes <= 60) {
        return Err(LeaseError::TtlOutOfRange);
    }
    let key = str_chars(api_key);
    assert(key@.subrange(0, key@.len() as int) =~= key@);
    if is_blank_in(key.as_slice(), 0, key.len()) {
        Err(LeaseError::EmptyKey)
    } else {
        Ok(())
    }
}

/// What a store request at time `now` writes: the lease and a fresh file
/// name for it. Refused for a lifetime outside 1..=60 minutes, then for a
/// blank key.
pub fn store_request(api_key: String, ttl_minutes: u32, now: i64) -> (res: Result<
    (Lease, String),
    LeaseError,
>)
    requires
        now + max_ttl_minutes() * 60 <= i64::MAX,
    ensures
        !(1 <= ttl_minutes <= max_ttl_minutes()) ==> res == Err::<(Lease, String), LeaseError>(
            LeaseError::TtlOutOfRange,
        ),
        1 <= ttl_minutes <= max_ttl_minutes() && is_blank(api_key@) ==> res == Err::<
            (Lease, String),
            LeaseError,
        >(LeaseError::EmptyKey),
        1 <= ttl_minutes <= max_ttl_minutes() && !is_blank(api_key@) ==> (res matches Ok((lease, name))
            && lease.schema@ == lease_schema() && lease.purpose@ == lease_purpose()
            && lease.issued_at == now && lease.expires_at == now + ttl_minutes * 60
            && lease.api_key@ == api_key@ && spec_valid_lease_name(name@)),
{
    match check_store_request(api_key.as_str(), ttl_minutes) {
        Err(e) => Err(e),
        Ok(()) => {
            let name = generate_lease_name();
            Ok((new_lease(api_key, now, ttl_minutes), name))
        },
    }
}

/// A new lease is valid from the second it is issued until the second
/// before it expires, and not before or from its expiry on.
pub proof fn lemma_new_lease_valid_span(api_key: Seq<char>, now: int, ttl_minutes: int, t: int)
    requires
        1 <= ttl_minutes <= max_ttl_minutes(),
        !is_blank(api_key),
    ensures
        lease_valid(lease_schema(), lease_purpose(), now, now + ttl_minutes * 60, api_key, t) <==> (
        now <= t < now + ttl_minutes * 60),
{
}

pub open spec fn is_hex_digit(c: char) -> bool {
    ('0' <= c && c <= '9') || ('a' <= c && c <= 'f') || ('A' <= c && c <= 'F')
}

pub open spec fn lease_prefix() -> Seq<char> {
    seq!['l', 'e', 'a', 's', 'e', '-']
}

pub open spec fn lease_suffix() -> Seq<char> {
    seq!['.', 'b', 'i', 'n']
}

/// Names that this program generates for leases: `lease-`, 32 hexadecimal
/// digits, `.bin`.
pub open spec fn spec_valid_lease_name(name: Seq<char>) -> bool {
    &&& name.len() == 42
    &&& name.subrange(0, 6) == lease_prefix()
    &&& name.subrange(38, 42) == lease_suffix()
    &&& forall|i: int| 6 <= i < 38 ==> is_hex_digit(#[trigger] name[i])
}

/// Whether a file name is one that this program generates for a lease.
pub fn valid_lease_name(name: &str) -> (res: bool)
    ensures
        res == spec_valid_lease_name(name@),
{
    let chars = str_chars(name);
    let s = chars.as_slice();
    if s.len() != 42 {
        return false;
    }
    let prefix = ['l', 'e', 'a', 's', 'e', '-'];
    let suffix = ['.', 'b', 'i', 'n'];
    assert(prefix@ =~= lease_prefix());
    assert(suffix@ =~= lease_suffix());
    if !crate::text::range_equals(s, 0, 6, &prefix) || !crate::text::range_equals(
        s,
        38,
        42,
        &suffix,
    ) {
        return false;
    }
    let mut i: usize = 6;
    while i < 38
        invariant
            6 <= i <= 38,
            s@.len() == 42,
            s@ == name@,
            forall|j: int| 6 <= j < i ==> is_hex_digit(#[trigger] s@[j]),
        decreases 38 - i,
    {
        let c = s[i];
        if !(('0' <= c && c <= '9') || ('a' <= c && c <= 'f') || ('A' <= c && c <= 'F')) {
            assert(!is_hex_digit(s@[i as int]));
            return false;
        }
        i += 1;
    }
    true
}

/// Checks the lease identity given to the scheduled cleanup: only a name
/// that this program generates may be removed.
pub fn cleanup(name: &str) -> (res: Result<(), LeaseError>)
    ensures
        res is Ok <==> spec_valid_lease_name(name@),
        res is Err ==> res == Err::<(), LeaseError>(LeaseError::InvalidLeaseIdentity),
{
    if valid_lease_name(name) {
        Ok(())
    } else {
        Err(LeaseError::InvalidLeaseIdentity)
    }
}

/// The file of a lease in the credential directory; refused for a name that
/// this program does not generate.
pub fn checked_path(root: &str, name: &str) -> (res: Result<String, LeaseError>)
    ensures
        match res {
            Ok(path) => spec_valid_lease_name(name@) && path@ == path_join(root@, name@),
            Err(e) => !spec_valid_lease_name(name@) && e == LeaseError::InvalidLeaseIdentity,
        },
{
    if !valid_lease_name(name) {
        return Err(LeaseError::InvalidLeaseIdentity);
    }
    let r = str_chars(root);
    let mut path = String::from_str(root);
    if r.len() > 0 && r[r.len() - 1] != '/' {
        path.append("/");
    }
    path.append(name);
    proof {
        reveal_strlit("/");
        if r@.len() > 0 {
            assert(root@.last() == r@[r@.len() - 1]);
        }
    }
    assert(path@ =~= path_join(root@, name@));
    Ok(path)
}

/// The lease files among a directory's entries, in listing order.
pub open spec fn lease_files(entries: Seq<Seq<char>>) -> Seq<Seq<char>>
    decreases entries.len(),
{
    if entries.len() == 0 {
        seq![]
    } else {
        let before = lease_files(entries.drop_last());
        if spec_valid_lease_name(entries.last()) {
            before.push(entries.last())
        } else {
            before
        }
    }
}

/// The lease files among a directory's entries, except `kept`.
pub open spec fn other_lease_files(entries: Seq<Seq<char>>, kept: Seq<char>) -> Seq<Seq<char>>
    decreases entries.len(),
{
    if entries.len() == 0 {
        seq![]
    } else {
        let before = other_lease_files(entries.drop_last(), kept);
        if spec_valid_lease_name(entries.last()) && entries.last() != kept {
            before.push(entries.last())
        } else {
            before
        }
    }
}

proof fn lemma_lease_files_valid(entries: Seq<Seq<char>>)
    ensures
        forall|i: int|
            0 <= i < lease_files(entries).len() ==> spec_valid_lease_name(
                #[trigger] lease_files(entries)[i],
            ),
    decreases entries.len(),
{
    if entries.len() > 0 {
        let before = lease_files(entries.drop_last());
        lemma_lease_files_valid(entries.drop_last());
        assert forall|i: int|
            0 <= i < lease_files(entries).len() implies spec_valid_lease_name(
            #[trigger] lease_files(entries)[i],
        ) by {
            if i < before.len() {
                assert(lease_files(entries)[i] == before[i]);
            }
        }
    }
}

/// Every lease that logout removes (and every stored lease that is read)
/// has a name that this program generates, so the identity check of the
/// scheduled cleanup accepts each of them.
pub proof fn lemma_listed_leases_are_generated(
    entries: Seq<Seq<char>>,
    listed: Seq<Seq<char>>,
    name: Seq<char>,
)
    requires
        listed.to_multiset() == lease_files(entries).to_multiset(),
        listed.contains(name),
    ensures
        spec_valid_lease_name(name),
{
    broadcast use vstd::seq_lib::group_to_multiset_ensures;

    lemma_lease_files_valid(entries);
    assert(listed.to_multiset().count(name) > 0);
    assert(lease_files(entries).contains(name));
}

/// The stored leases among a directory's entries (file names), in text
/// order.
pub fn lease_names(entries: &[String]) -> (res: Vec<String>)
    ensures
        sorted_texts(strings_view(res@)),
        strings_view(res@).to_multiset() == lease_files(strings_view(entries@)).to_multiset(),
{
    let mut found: Vec<String> = Vec::new();
    let mut k: usize = 0;
    while k < entries.len()
        invariant
            k <= entries@.len(),
            strings_view(found@) == lease_files(strings_view(entries@.subrange(0, k as int))),
        decreases entries@.len() - k,
    {
        let ghost pre = strings_view(entries@.subrange(0, k as int));
        let ghost next = strings_view(entries@.subrange(0, k + 1));
        assert(next.drop_last() =~= pre);
        assert(next.last() == entries@[k as int]@);
        if valid_lease_name(entries[k].as_str()) {
            found.push(entries[k].clone());
            assert(strings_view(found@) =~= lease_files(next));
        } else {
            assert(strings_view(found@) =~= lease_files(next));
        }
        k += 1;
    }
    assert(entries@.subrange(0, entries@.len() as int) =~= entries@);
    sort_texts(found)
}

/// Logging out removes every stored lease: these, in this order; their
/// number is what is reported.
pub fn logout(entries: &[String]) -> (res: Vec<String>)
    ensures
        sorted_texts(strings_view(res@)),
        strings_view(res@).to_multiset() == lease_files(strings_view(entries@)).to_multiset(),
{
    lease_names(entries)
}

/// After a new lease `kept` is stored, every other stored lease is
/// removed: these, in text order.
pub fn superseded_leases(entries: &[String], kept: &str) -> (res: Vec<String>)
    ensures
        sorted_texts(strings_view(res@)),
        strings_view(res@).to_multiset() == other_lease_files(strings_view(entries@), kept@).to_multiset(),
{
    let kept_chars = str_chars(kept);
    let mut found: Vec<String> = Vec::new();
    let mut k: usize = 0;
    while k < entries.len()
        invariant
            k <= entries@.len(),
            kept_chars@ == kept@,
            strings_view(found@) == other_lease_files(strings_view(entries@.subrange(0, k as int)), kept@),
        decreases entries@.len() - k,
    {
        let ghost pre = strings_view(entries@.subrange(0, k as int));
        let ghost next = strings_view(entries@.subrange(0, k + 1));
        assert(next.drop_last() =~= pre);
        assert(next.last() == entries@[k as int]@);
        let name = str_chars(entries[k].as_str());
        if valid_lease_name(entries[k].as_str()) && !slices_equal(name.as_slice(), kept_chars.as_slice()) {
            found.push(entries[k].clone());
            assert(strings_view(found@) =~= other_lease_files(next, kept@));
        } else {
            assert(strings_view(found@) =~= other_lease_files(next, kept@));
        }
        k += 1;
    }
    assert(entries@.subrange(0, entries@.len() as int) =~= entries@);
    sort_texts(found)
}

pub open spec fn hex_char(d: nat) -> char {
    if d < 10 {
        ('0' as u32 + d) as char
    } else {
        ('a' as u32 + (d - 10)) as char
    }
}

/// The lowest `width` hexadecimal digits of `n`, most significant first.
pub open spec fn hex_fixed(n: nat, width: nat) -> Seq<char>
    decreases width,
{
    if width == 0 {
        seq![]
    } else {
        hex_fixed(n / 16, (width - 1) as nat).push(hex_char(n % 16))
    }
}

/// `lease-<id as 32 lowercase hex digits>.bin`.
pub open spec fn spec_lease_name_for(id: u128) -> Seq<char> {
    lease_prefix() + hex_fixed(id as nat, 32) + lease_suffix()
}

fn hex_digit_char(d: u128) -> (c: char)
    requires
        d < 16,
    ensures
        c == hex_char(d as nat),
{
    if d < 10 {
        ((d as u8) + 48) as char
    } else {
        ((d as u8) + 87) as char
    }
}

fn push_hex_fixed(n: u128, width: usize, out: &mut Vec<char>)
    ensures
        final(out)@ == old(out)@ + hex_fixed(n as nat, width as nat),
    decreases width,
{
    if width > 0 {
        push_hex_fixed(n / 16, width - 1, out);
        out.push(hex_digit_char(n % 16));
    }
}

/// The file name of the lease with generated identity `id`.
pub fn lease_name_for(id: u128) -> (res: String)
    ensures
        res@ == spec_lease_name_for(id),
{
    let mut out: Vec<char> = Vec::new();
    let prefix = ['l', 'e', 'a', 's', 'e', '-'];
    let suffix = ['.', 'b', 'i', 'n'];
    assert(prefix@ =~= lease_prefix());
    assert(suffix@ =~= lease_suffix());
    crate::text::push_all(&mut out, &prefix);
    push_hex_fixed(id, 32, &mut out);
    crate::text::push_all(&mut out, &suffix);
    assert(out@ =~= spec_lease_name_for(id));
    string_from_chars(out.as_slice())
}

proof fn lemma_hex_fixed(n: nat, width: nat)
    ensures
        hex_fixed(n, width).len() == width,
        forall|i: int| 0 <= i < width ==> is_hex_digit(#[trigger] hex_fixed(n, width)[i]),
    decreases width,
{
    if width > 0 {
        lemma_hex_fixed(n / 16, (width - 1) as nat);
        let d = n % 16;
        assert(is_hex_digit(hex_char(d)));
        assert forall|i: int| 0 <= i < width implies is_hex_digit(
            #[trigger] hex_fixed(n, width)[i],
        ) by {
            if i < width - 1 {
                assert(hex_fixed(n, width)[i] == hex_fixed(n / 16, (width - 1) as nat)[i]);
            }
        }
    }
}

/// `rand::random::<u128>()`: a random lease identity. Nothing is claimed of
/// the value; the thread-local generator panics only where the operating
/// system cannot supply random bytes.
#[verifier::external_body]
fn random_lease_id() -> u128 {
    rand::random::<u128>()
}

/// A fresh lease name: `lease-` and a random identity in 32 lowercase
/// hexadecimal digits, then `.bin`.
pub fn generate_lease_name() -> (res: String)
    ensures
        exists|id: u128| res@ == spec_lease_name_for(id),
        spec_valid_lease_name(res@),
{
    let id = random_lease_id();
    let name = lease_name_for(id);
    proof {
        lemma_generated_lease_names_are_valid(id);
    }
    name
}

/// Every generated lease name is accepted as a lease identity.
pub proof fn lemma_generated_lease_names_are_valid(id: u128)
    ensures
        spec_valid_lease_name(spec_lease_name_for(id)),
{
    lemma_hex_fixed(id as nat, 32);
    let name = spec_lease_name_for(id);
    let hex = hex_fixed(id as nat, 32);
    assert(name.subrange(0, 6) =~= lease_prefix());
    assert(name.subrange(38, 42) =~= lease_suffix());
    assert forall|i: int| 6 <= i < 38 implies is_hex_digit(#[trigger] name[i]) by {
        assert(name[i] == hex[i - 6]);
    }
}


/// A stored lease that could be read and may be used at `now`.
pub open spec fn usable(entry: Option<Lease>, now: int) -> bool {
    entry matches Some(l) && l.valid_at(now)
}

pub open spec fn issued(entry: Option<Lease>) -> int {
    match entry {
        Some(l) => l.issued_at as int,
        None => 0,
    }
}

/// Which stored lease is used, and which stored files are to be deleted.
#[derive(Debug, Clone, PartialEq, Eq)]
pub struct LeaseSelection {
    /// The usable lease issued last (the first of them on a tie).
    pub selected: Option<usize>,
    /// In order, every file that could not be read or is not usable.
    pub stale: Vec<usize>,
}

/// `stale` lists, in increasing order, exactly the unusable entries.
pub open spec fn stale_exactly(entries: Seq<Option<Lease>>, now: int, stale: Seq<usize>) -> bool {
    &&& forall|a: int, b: int| 0 <= a < b < stale.len() ==> stale[a] < stale[b]
    &&& forall|a: int| 0 <= a < stale.len() ==> 0 <= #[trigger] stale[a] < entries.len() && !usable(
        entries[stale[a] as int],
        now,
    )
    &&& forall|k: int|
        0 <= k < entries.len() && !usable(#[trigger] entries[k], now) ==> stale.contains(
            k as usize,
        )
}

/// `selected` is the first of the usable entries issued last, if any.
pub open spec fn selected_correctly(
    entries: Seq<Option<Lease>>,
    now: int,
    selected: Option<usize>,
) -> bool {
    match selected {
        None => forall|k: int| 0 <= k < entries.len() ==> !usable(#[trigger] entries[k], now),
        Some(i) => {
            &&& i < entries.len()
            &&& usable(entries[i as int], now)
            &&& forall|k: int|
                0 <= k < entries.len() && usable(#[trigger] entries[k], now) ==> issued(
                    entries[k],
                ) <= issued(entries[i as int])
            &&& forall|k: int|
                0 <= k < i && usable(#[trigger] entries[k], now) ==> issued(entries[k]) < issued(
                    entries[i as int],
                )
        },
    }
}

/// A stored entry that holds the key `key`.
pub open spec fn holds_key(entry: Option<Lease>, key: Seq<char>) -> bool {
    entry matches Some(lease) && lease.api_key@ == key
}

/// A lease as a store request makes it (the `Ok` case of `store_request`)
/// is reused: while it is the only usable stored lease, it is the one that
/// `select_lease` picks, with its key, at every time from its issue until
/// the second before it expires, and it is never picked from its expiry on.
pub proof fn lemma_stored_lease_is_reused_until_expiry(
    entries: Seq<Option<Lease>>,
    i: int,
    api_key: Seq<char>,
    ttl_minutes: int,
    issued_at: int,
    now: int,
)
    requires
        0 <= i < entries.len(),
        1 <= ttl_minutes <= max_ttl_minutes(),
        !is_blank(api_key),
        entries[i] matches Some(lease) && lease.schema@ == lease_schema() && lease.purpose@
            == lease_purpose() && lease.issued_at == issued_at && lease.expires_at == issued_at
            + ttl_minutes * 60 && lease.api_key@ == api_key,
        forall|k: int| 0 <= k < entries.len() && k != i ==> !usable(#[trigger] entries[k], now),
    ensures
        issued_at <= now < issued_at + ttl_minutes * 60 ==> forall|selected: Option<usize>|
            selected_correctly(entries, now, selected) ==> selected == Some(i as usize)
                && holds_key(entries[i], api_key),
        !(issued_at <= now < issued_at + ttl_minutes * 60) ==> forall|selected: Option<usize>|
            selected_correctly(entries, now, selected) ==> selected is None,
{
    lemma_new_lease_valid_span(api_key, issued_at, ttl_minutes, now);
    assert(usable(entries[i], now) <==> issued_at <= now < issued_at + ttl_minutes * 60);
    assert forall|selected: Option<usize>| selected_correctly(entries, now, selected) implies (
    issued_at <= now < issued_at + ttl_minutes * 60 ==> selected == Some(i as usize)) && (!(issued_at
        <= now < issued_at + ttl_minutes * 60) ==> selected is None) by {
        match selected {
            Some(j) => {
                assert(usable(entries[j as int], now));
                assert(j as int == i);
            },
            None => {
                assert(!usable(entries[i], now));
            },
        }
    }
}

fn entry_usable(entry: &Option<Lease>, now: i64) -> (res: bool)
    ensures
        res == usable(*entry, now as int),
{
    match entry {
        Some(l) => l.valid(now),
        None => false,
    }
}

/// Chooses the lease to use among the stored ones (each `None` where a
/// file could not be read) and the files to delete.
pub fn select_lease(entries: &[Option<Lease>], now: i64) -> (res: LeaseSelection)
    ensures
        selected_correctly(entries@, now as int, res.selected),
        stale_exactly(entries@, now as int, res.stale@),
{
    let mut selected: Option<usize> = None;
    let mut stale: Vec<usize> = Vec::new();
    let mut k: usize = 0;
    while k < entries.len()
        invariant
            k <= entries@.len(),
            selected_correctly(entries@.subrange(0, k as int), now as int, selected),
            forall|a: int, b: int| 0 <= a < b < stale@.len() ==> stale@[a] < stale@[b],
            forall|a: int|
                0 <= a < stale@.len() ==> 0 <= #[trigger] stale@[a] < k && !usable(
                    entries@[stale@[a] as int],
                    now as int,
                ),
            forall|j: int|
                0 <= j < k && !usable(#[trigger] entries@[j], now as int) ==> stale@.contains(
                    j as usize,
                ),
        decreases entries@.len() - k,
    {
        let ghost pre = entries@.subrange(0, k as int);
        let ghost next = entries@.subrange(0, k + 1);
        assert forall|j: int| 0 <= j < k implies next[j] == pre[j] && pre[j] == entries@[j] by {}
        assert(next[k as int] == entries@[k as int]);
        if entry_usable(&entries[k], now) {
            let take = match selected {
                None => true,
                Some(i) => match (&entries[i], &entries[k]) {
                    (Some(prev), Some(cur)) => prev.issued_at < cur.issued_at,
                    _ => false,
                },
            };
            if take {
                selected = Some(k);
            }
            assert(selected_correctly(next, now as int, selected));
        } else {
            let ghost old_stale = stale@;
            stale.push(k);
            assert forall|j: int|
                0 <= j < k + 1 && !usable(#[trigger] entries@[j], now as int) implies stale@.contains(
                j as usize,
            ) by {
                if j < k {
                    let w = choose|w: int| 0 <= w < old_stale.len() && old_stale[w] == j as usize;
                    assert(stale@[w] == j as usize);
                } else {
                    assert(stale@[old_stale.len() as int] == k);
                }
            }
            assert(selected_correctly(next, now as int, selected));
        }
        k += 1;
    }
    assert(entries@.subrange(0, entries@.len() as int) =~= entries@);
    LeaseSelection { selected, stale }
}

/// The number of usable entries among the first `k`.
pub open spec fn count_usable(entries: Seq<Option<Lease>>, now: int, k: int) -> nat
    decreases k,
{
    if k <= 0 {
        0
    } else {
        count_usable(entries, now, k - 1) + if usable(entries[k - 1], now) {
            1nat
        } else {
            0nat
        }
    }
}

/// The latest expiry among usable entries, and never before `now`.
pub open spec fn latest_expiry(entries: Seq<Option<Lease>>, now: int, k: int) -> int
    decreases k,
{
    if k <= 0 {
        now
    } else {
        let prev = latest_expiry(entries, now, k - 1);
        match entries[k - 1] {
            Some(l) => if l.valid_at(now) && l.expires_at > prev {
                l.expires_at as int
            } else {
                prev
            },
            None => prev,
        }
    }
}

proof fn lemma_latest_expiry_bounds(entries: Seq<Option<Lease>>, now: int, k: int)
    requires
        0 <= k <= entries.len(),
    ensures
        now <= latest_expiry(entries, now, k) <= now + max_ttl_minutes() * 60,
    decreases k,
{
    if k > 0 {
        lemma_latest_expiry_bounds(entries, now, k - 1);
    }
}

/// The positions among the first `k` entries of the leases usable at `now`.
pub open spec fn usable_positions(entries: Seq<Option<Lease>>, now: int, k: int) -> Set<int> {
    Set::new(|q: int| 0 <= q < k && usable(entries[q], now))
}

/// The count of usable leases is how many stored entries are usable at
/// `now`: one for each such entry, and none for any other.
pub proof fn lemma_count_is_the_usable_entries(entries: Seq<Option<Lease>>, now: int, k: int)
    requires
        0 <= k <= entries.len(),
    ensures
        usable_positions(entries, now, k).finite(),
        count_usable(entries, now, k) == usable_positions(entries, now, k).len(),
    decreases k,
{
    if k == 0 {
        assert(usable_positions(entries, now, k) =~= Set::<int>::empty());
    } else {
        lemma_count_is_the_usable_entries(entries, now, k - 1);
        let before = usable_positions(entries, now, k - 1);
        if usable(entries[k - 1], now) {
            assert(usable_positions(entries, now, k) =~= before.insert(k - 1));
            assert(!before.contains(k - 1));
        } else {
            assert(usable_positions(entries, now, k) =~= before);
        }
    }
}

/// When an entry expires (0 for one that could not be read).
pub open spec fn expiry_of(entry: Option<Lease>) -> int {
    match entry {
        Some(l) => l.expires_at as int,
        None => 0,
    }
}

/// Some entry among the first `k` is usable at `now`.
pub open spec fn some_usable(entries: Seq<Option<Lease>>, now: int, k: int) -> bool {
    exists|q: int| 0 <= q < k && usable(#[trigger] entries[q], now)
}

/// The latest expiry is the longest-lived usable lease's: no usable entry
/// expires later, some usable entry expires then, and with none usable it
/// is `now` itself.
pub proof fn lemma_latest_expiry_is_the_longest(entries: Seq<Option<Lease>>, now: int, k: int)
    requires
        0 <= k <= entries.len(),
    ensures
        forall|q: int|
            0 <= q < k && usable(#[trigger] entries[q], now) ==> expiry_of(entries[q])
                <= latest_expiry(entries, now, k),
        some_usable(entries, now, k) ==> exists|q: int|
            0 <= q < k && usable(#[trigger] entries[q], now) && expiry_of(entries[q])
                == latest_expiry(entries, now, k),
        !some_usable(entries, now, k) ==> latest_expiry(entries, now, k) == now,
    decreases k,
{
    if k > 0 {
        lemma_latest_expiry_is_the_longest(entries, now, k - 1);
        let prev = latest_expiry(entries, now, k - 1);
        let cur = latest_expiry(entries, now, k);
        assert(cur >= prev);
        if usable(entries[k - 1], now) {
            assert(expiry_of(entries[k - 1]) <= cur);
        }
        if some_usable(entries, now, k) {
            if some_usable(entries, now, k - 1) {
                let q = choose|q: int|
                    0 <= q < k - 1 && usable(#[trigger] entries[q], now) && expiry_of(entries[q])
                        == prev;
                if cur != prev {
                    assert(usable(entries[k - 1], now) && expiry_of(entries[k - 1]) == cur);
                } else {
                    assert(usable(entries[q], now) && expiry_of(entries[q]) == cur);
                }
            } else {
                let q = choose|q: int| 0 <= q < k && usable(#[trigger] entries[q], now);
                if q < k - 1 {
                    assert(some_usable(entries, now, k - 1));
                }
                assert(usable(entries[k - 1], now));
                assert(expiry_of(entries[k - 1]) > now);
                assert(expiry_of(entries[k - 1]) == cur);
            }
        } else {
            assert(!usable(entries[k - 1], now));
            assert(!some_usable(entries, now, k - 1)) by {
                if some_usable(entries, now, k - 1) {
                    let q = choose|q: int| 0 <= q < k - 1 && usable(#[trigger] entries[q], now);
                    assert(0 <= q < k);
                }
            }
        }
    }
}

/// How many stored leases are usable, and how many seconds the longest of
/// them has left (0 when none is usable).
pub fn lease_status(entries: &[Option<Lease>], now: i64) -> (res: (usize, i64))
    ensures
        res.0 == count_usable(entries@, now as int, entries@.len() as int),
        res.0 == usable_positions(entries@, now as int, entries@.len() as int).len(),
        res.1 == latest_expiry(entries@, now as int, entries@.len() as int) - now,
        forall|q: int|
            0 <= q < entries@.len() && usable(#[trigger] entries@[q], now as int) ==> res.1
                >= expiry_of(entries@[q]) - now,
        some_usable(entries@, now as int, entries@.len() as int) ==> exists|q: int|
            0 <= q < entries@.len() && usable(#[trigger] entries@[q], now as int) && res.1
                == expiry_of(entries@[q]) - now,
        !some_usable(entries@, now as int, entries@.len() as int) ==> res.1 == 0,
{
    let mut active: usize = 0;
    let mut latest: i64 = now;
    let mut k: usize = 0;
    while k < entries.len()
        invariant
            k <= entries@.len(),
            active == count_usable(entries@, now as int, k as int),
            active <= k,
            latest == latest_expiry(entries@, now as int, k as int),
        decreases entries@.len() - k,
    {
        match &entries[k] {
            Some(l) => {
                if l.valid(now) {
                    active += 1;
                    if l.expires_at > latest {
                        latest = l.expires_at;
                    }
                }
            },
            None => {},
        }
        k += 1;
    }
    proof {
        lemma_latest_expiry_bounds(entries@, now as int, entries@.len() as int);
        lemma_latest_expiry_is_the_longest(entries@, now as int, entries@.len() as int);
        lemma_count_is_the_usable_entries(entries@, now as int, entries@.len() as int);
    }
    (active, latest - now)
}


/// Internal scheduled cleanup for one generated lease.
#[derive(Debug, Clone, PartialEq, Eq)]
pub struct SubdlCleanupArgs {
    /// Generated lease identity; arbitrary paths are rejected.
    pub lease: String,
}

impl SubdlCleanupArgs {
    /// Accepts the lease for removal only where it is a generated identity.
    pub fn invoke(&self) -> (res: Result<(), LeaseError>)
        ensures
            res is Ok <==> spec_valid_lease_name(self.lease@),
            res is Err ==> res == Err::<(), LeaseError>(LeaseError::InvalidLeaseIdentity),
    {
        cleanup(self.lease.as_str())
    }
}

/// Remove all cached SubDL login leases now.
#[derive(Debug, Clone, Copy, PartialEq, Eq, Structural)]
pub struct SubdlLogoutArgs;

impl SubdlLogoutArgs {
    /// The leases to remove, given the credential directory's entries.
    pub fn invoke(&self, entries: &[String]) -> (res: Vec<String>)
        ensures
            sorted_texts(strings_view(res@)),
            strings_view(res@).to_multiset() == lease_files(strings_view(entries@)).to_multiset(),
    {
        logout(entries)
    }
}

/// Show cached SubDL login state without reading 1Password.
#[derive(Debug, Clone, Copy, PartialEq, Eq, Structural)]
pub struct SubdlStatusArgs;

impl SubdlStatusArgs {
    /// The number of usable leases and the most seconds any of them has
    /// left, given the stored leases (`None` where one cannot be read).
    pub fn invoke(&self, entries: &[Option<Lease>], now: i64) -> (res: (usize, i64))
        ensures
            res.0 == count_usable(entries@, now as int, entries@.len() as int),
            res.1 == latest_expiry(entries@, now as int, entries@.len() as int) - now,
    {
        lease_status(entries, now)
    }
}

/// The XML escape of one character.
pub open spec fn escape_char(c: char) -> Seq<char> {
    if c == '&' {
        seq!['&', 'a', 'm', 'p', ';']
    } else if c == '<' {
        seq!['&', 'l', 't', ';']
    } else if c == '>' {
        seq!['&', 'g', 't', ';']
    } else if c == '"' {
        seq!['&', 'q', 'u', 'o', 't', ';']
    } else if c == '\'' {
        seq!['&', 'a', 'p', 'o', 's', ';']
    } else {
        seq![c]
    }
}

/// Text with `&`, `<`, `>`, `"` and `'` replaced by their XML entities.
pub open spec fn xml_escaped(s: Seq<char>) -> Seq<char>
    decreases s.len(),
{
    if s.len() == 0 {
        seq![]
    } else {
        xml_escaped(s.drop_last()) + escape_char(s.last())
    }
}

fn push_escaped_char(out: &mut Vec<char>, c: char)
    ensures
        final(out)@ == old(out)@ + escape_char(c),
{
    if c == '&' {
        crate::text::push_all(out, &['&', 'a', 'm', 'p', ';']);
    } else if c == '<' {
        crate::text::push_all(out, &['&', 'l', 't', ';']);
    } else if c == '>' {
        crate::text::push_all(out, &['&', 'g', 't', ';']);
    } else if c == '"' {
        crate::text::push_all(out, &['&', 'q', 'u', 'o', 't', ';']);
    } else if c == '\'' {
        crate::text::push_all(out, &['&', 'a', 'p', 'o', 's', ';']);
    } else {
        out.push(c);
    }
    assert(out@ =~= old(out)@ + escape_char(c));
}

/// Escapes text for use inside XML.
pub fn xml_escape(value: &str) -> (res: String)
    ensures
        res@ == xml_escaped(value@),
{
    let chars = str_chars(value);
    let mut out: Vec<char> = Vec::new();
    let mut i: usize = 0;
    while i < chars.len()
        invariant
            i <= chars@.len(),
            out@ == xml_escaped(chars@.subrange(0, i as int)),
        decreases chars@.len() - i,
    {
        assert(chars@.subrange(0, i + 1).drop_last() =~= chars@.subrange(0, i as int));
        push_escaped_char(&mut out, chars[i]);
        i += 1;
    }
    assert(chars@.subrange(0, chars@.len() as int) =~= chars@);
    string_from_chars(out.as_slice())
}

/// The scheduled task that removes one lease: `Teamy-Subs-SubDL-<sid>-<lease>`.
pub fn task_name(user_sid: &str, lease_name: &str) -> (res: String)
    ensures
        res@ == "Teamy-Subs-SubDL-"@ + user_sid@ + "-"@ + lease_name@,
{
    let mut out = String::from_str("Teamy-Subs-SubDL-");
    out.append(user_sid);
    out.append("-");
    out.append(lease_name);
    out
}

/// What the cleanup task says of itself: it removes one lease and then
/// itself, and holds no key.
pub open spec fn cleanup_description() -> Seq<char> {
    "Remove one expired Teamy Subs SubDL lease, then unregister this"@
        + " task. No API key is stored in this"@
        + " task."@
}

/// The Task Scheduler definition of a lease's cleanup: a one-time trigger
/// at `start_boundary`, ending at `end_boundary`, that runs the program as
/// `subdl cleanup --lease <name>` for the user `user_sid`, with least
/// privilege, no stored password and no shell.
pub open spec fn cleanup_xml_text(
    lease_name: Seq<char>,
    user_sid: Seq<char>,
    executable: Seq<char>,
    start_boundary: Seq<char>,
    end_boundary: Seq<char>,
) -> Seq<char> {
    "<?xml version=\"1.0\" encoding=\"UTF-16\"?>\n<Task version=\"1.2\" xmlns=\"http://schemas.microsoft.com/windows/2004/02/mit/task\">\n  <RegistrationInfo><Description>"@
        + cleanup_description() + "</Description></RegistrationInfo>\n  <Triggers><TimeTrigger><StartBoundary>"@
        + start_boundary + "</StartBoundary><EndBoundary>"@ + end_boundary
        + "</EndBoundary><Enabled>true</Enabled></TimeTrigger></Triggers>\n  <Principals><Principal id=\"Author\"><UserId>"@
        + xml_escaped(user_sid)
        + "</UserId><LogonType>InteractiveToken</LogonType><RunLevel>LeastPrivilege</RunLevel></Principal></Principals>\n  <Settings><MultipleInstancesPolicy>IgnoreNew</MultipleInstancesPolicy><DisallowStartIfOnBatteries>false</DisallowStartIfOnBatteries><StopIfGoingOnBatteries>false</StopIfGoingOnBatteries><StartWhenAvailable>true</StartWhenAvailable><Enabled>true</Enabled><Hidden>true</Hidden><ExecutionTimeLimit>PT2M</ExecutionTimeLimit><DeleteExpiredTaskAfter>P30D</DeleteExpiredTaskAfter><RestartOnFailure><Interval>PT1M</Interval><Count>3</Count></RestartOnFailure></Settings>\n  <Actions Context=\"Author\"><Exec><Command>"@
        + xml_escaped(executable) + "</Command><Arguments>subdl cleanup --lease "@ + lease_name
        + "</Arguments></Exec></Actions>\n</Task>"@
}

/// Thirty days, in seconds: how long after its start the cleanup task may
/// still run.
pub open spec fn cleanup_window() -> int {
    2_592_000
}

/// The cleanup definition for a lease expiring at Unix time `expiry`: it
/// starts at the expiry and ends thirty days later, both written in RFC 3339
/// (UTC, whole seconds); `None` where the end is past the range of `i64`
/// or either time cannot be written.
pub open spec fn spec_cleanup_xml(
    lease_name: Seq<char>,
    user_sid: Seq<char>,
    executable: Seq<char>,
    expiry: int,
) -> Option<Seq<char>> {
    if expiry + cleanup_window() > i64::MAX {
        None
    } else {
        match (chrono_rfc3339_z(expiry), chrono_rfc3339_z(expiry + cleanup_window())) {
            (Some(start), Some(end)) => Some(
                cleanup_xml_text(lease_name, user_sid, executable, start, end),
            ),
            _ => None,
        }
    }
}

/// The Task Scheduler definition of a lease's cleanup; it is always made for
/// an expiry within `chrono`'s range, as every present-day one is.
pub fn cleanup_xml(lease_name: &str, user_sid: &str, executable: &str, expiry: i64) -> (res: Option<
    String,
>)
    ensures
        match res {
            Some(xml) => spec_cleanup_xml(lease_name@, user_sid@, executable@, expiry as int) == Some(
                xml@,
            ),
            None => spec_cleanup_xml(lease_name@, user_sid@, executable@, expiry as int) is None,
        },
        within_chrono_range(expiry as int) && within_chrono_range(expiry + cleanup_window())
            ==> res is Some,
{
    if expiry > i64::MAX - 30 * 86_400 {
        return None;
    }
    let start = match rfc3339_z(expiry) {
        Some(s) => s,
        None => return None,
    };
    let end = match rfc3339_z(expiry + 30 * 86_400) {
        Some(s) => s,
        None => return None,
    };
    let sid = xml_escape(user_sid);
    let exe = xml_escape(executable);
    let mut out = String::from_str(
        "<?xml version=\"1.0\" encoding=\"UTF-16\"?>\n<Task version=\"1.2\" xmlns=\"http://schemas.microsoft.com/windows/2004/02/mit/task\">\n  <RegistrationInfo><Description>",
    );
    out.append("Remove one expired Teamy Subs SubDL lease, then unregister this");
    out.append(" task. No API key is stored in this");
    out.append(" task.");
    out.append("</Description></RegistrationInfo>\n  <Triggers><TimeTrigger><StartBoundary>");
    out.append(start.as_str());
    out.append("</StartBoundary><EndBoundary>");
    out.append(end.as_str());
    out.append(
        "</EndBoundary><Enabled>true</Enabled></TimeTrigger></Triggers>\n  <Principals><Principal id=\"Author\"><UserId>",
    );
    out.append(sid.as_str());
    out.append(
        "</UserId><LogonType>InteractiveToken</LogonType><RunLevel>LeastPrivilege</RunLevel></Principal></Principals>\n  <Settings><MultipleInstancesPolicy>IgnoreNew</MultipleInstancesPolicy><DisallowStartIfOnBatteries>false</DisallowStartIfOnBatteries><StopIfGoingOnBatteries>false</StopIfGoingOnBatteries><StartWhenAvailable>true</StartWhenAvailable><Enabled>true</Enabled><Hidden>true</Hidden><ExecutionTimeLimit>PT2M</ExecutionTimeLimit><DeleteExpiredTaskAfter>P30D</DeleteExpiredTaskAfter><RestartOnFailure><Interval>PT1M</Interval><Count>3</Count></RestartOnFailure></Settings>\n  <Actions Context=\"Author\"><Exec><Command>",
    );
    out.append(exe.as_str());
    out.append("</Command><Arguments>subdl cleanup --lease ");
    out.append(lease_name);
    out.append("</Arguments></Exec></Actions>\n</Task>");
    assert(out@ =~= cleanup_xml_text(lease_name@, user_sid@, executable@, start@, end@));
    Some(out)
}

} // verus!
