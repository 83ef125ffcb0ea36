//! Configuration properties: a small string-keyed map of string values,
//! with constructors for the common session modes and the translation of
//! recognized keys into their numeric codes.
//!
//! Key matching is case-insensitive over ASCII letters. A value may hold
//! several comma-separated entries; the numeric translation emits one
//! pair per entry.

use vstd::prelude::*;
use vstd::string::StrSliceExecFns;
use vstd::utf8::encode_utf8;

verus! {

pub const ZN_MODE_KEY: u64 = 0x40;

pub const ZN_PEER_KEY: u64 = 0x41;

pub const ZN_LISTENER_KEY: u64 = 0x42;

pub const ZN_USER_KEY: u64 = 0x43;

pub const ZN_PASSWORD_KEY: u64 = 0x44;

pub const ZN_MULTICAST_SCOUTING_KEY: u64 = 0x45;

pub const ZN_MULTICAST_INTERFACE_KEY: u64 = 0x46;

pub const ZN_MULTICAST_ADDRESS_KEY: u64 = 0x47;

pub const ZN_SCOUTING_TIMEOUT_KEY: u64 = 0x48;

pub const ZN_SCOUTING_DELAY_KEY: u64 = 0x49;

pub const ZN_ADD_TIMESTAMP_KEY: u64 = 0x4a;

pub const ZN_LOCAL_ROUTING_KEY: u64 = 0x4b;

/// `a` is `b` up to ASCII case: equal outright, or an ASCII capital
/// whose lowercase form is `b`.
pub open spec fn char_eq_ci(a: char, b: char) -> bool {
    a == b || (65 <= a as u32 <= 90 && a as u32 + 32 == b as u32)
}

/// `s` matches `t` up to ASCII case, position by position.
pub open spec fn matches_ci(s: Seq<char>, t: Seq<char>) -> bool {
    s.len() == t.len() && (forall|i: int| 0 <= i < s.len() ==> char_eq_ci(s[i], #[trigger] t[i]))
}

/// The numeric code of a recognized configuration key.
pub open spec fn key_code(s: Seq<char>) -> Option<u64> {
    if matches_ci(s, "mode"@) {
        Some(ZN_MODE_KEY)
    } else if matches_ci(s, "peer"@) {
        Some(ZN_PEER_KEY)
    } else if matches_ci(s, "listener"@) {
        Some(ZN_LISTENER_KEY)
    } else if matches_ci(s, "user"@) {
        Some(ZN_USER_KEY)
    } else if matches_ci(s, "password"@) {
        Some(ZN_PASSWORD_KEY)
    } else if matches_ci(s, "multicast_scouting"@) {
        Some(ZN_MULTICAST_SCOUTING_KEY)
    } else if matches_ci(s, "multicast_interface"@) {
        Some(ZN_MULTICAST_INTERFACE_KEY)
    } else if matches_ci(s, "multicast_address"@) {
        Some(ZN_MULTICAST_ADDRESS_KEY)
    } else if matches_ci(s, "scouting_timeout"@) {
        Some(ZN_SCOUTING_TIMEOUT_KEY)
    } else if matches_ci(s, "scouting_delay"@) {
        Some(ZN_SCOUTING_DELAY_KEY)
    } else if matches_ci(s, "add_timestamp"@) {
        Some(ZN_ADD_TIMESTAMP_KEY)
    } else if matches_ci(s, "local_routing"@) {
        Some(ZN_LOCAL_ROUTING_KEY)
    } else {
        None
    }
}

/// Whether `key` matches `lit` up to ASCII case.
fn eq_ci(key: &str, lit: &str) -> (b: bool)
    ensures
        b == matches_ci(key@, lit@),
{
    let n = key.unicode_len();
    let m = lit.unicode_len();
    if n != m {
        return false;
    }
    let mut i: usize = 0;
    while i < n
        invariant
            i <= n,
            n == key@.len(),
            n == lit@.len(),
            forall|j: int| 0 <= j < i ==> char_eq_ci(key@[j], #[trigger] lit@[j]),
        decreases n - i,
    {
        let a = key.get_char(i);
        let b = lit.get_char(i);
        let au = a as u32;
        let bu = b as u32;
        if !(au == bu || (65 <= au && au <= 90 && au + 32 == bu)) {
            return false;
        }
        i = i + 1;
    }
    true
}

/// The numeric code a configuration key stands for, matching the key
/// case-insensitively over ASCII.
pub fn str_key_to_zn_key(key: &str) -> (r: Option<u64>)
    ensures
        r == key_code(key@),
{
    if eq_ci(key, "mode") {
        Some(ZN_MODE_KEY)
    } else if eq_ci(key, "peer") {
        Some(ZN_PEER_KEY)
    } else if eq_ci(key, "listener") {
        Some(ZN_LISTENER_KEY)
    } else if eq_ci(key, "user") {
        Some(ZN_USER_KEY)
    } else if eq_ci(key, "password") {
        Some(ZN_PASSWORD_KEY)
    } else if eq_ci(key, "multicast_scouting") {
        Some(ZN_MULTICAST_SCOUTING_KEY)
    } else if eq_ci(key, "multicast_interface") {
        Some(ZN_MULTICAST_INTERFACE_KEY)
    } else if eq_ci(key, "multicast_address") {
        Some(ZN_MULTICAST_ADDRESS_KEY)
    } else if eq_ci(key, "scouting_timeout") {
        Some(ZN_SCOUTING_TIMEOUT_KEY)
    } else if eq_ci(key, "scouting_delay") {
        Some(ZN_SCOUTING_DELAY_KEY)
    } else if eq_ci(key, "add_timestamp") {
        Some(ZN_ADD_TIMESTAMP_KEY)
    } else if eq_ci(key, "local_routing") {
        Some(ZN_LOCAL_ROUTING_KEY)
    } else {
        None
    }
}

/// A map of configuration properties, in insertion order.
pub struct Properties {
    pub entries: Vec<(String, String)>,
}

impl View for Properties {
    type V = Seq<(Seq<char>, Seq<char>)>;

    open spec fn view(&self) -> Seq<(Seq<char>, Seq<char>)> {
        self.entries@.map(|i: int, p: (String, String)| (p.0@, p.1@))
    }
}

impl Properties {
    /// Adds one key/value pair at the end; a later pair with the same
    /// key takes precedence when the map is read.
    pub fn insert(&mut self, k: String, v: String)
        ensures
            final(self)@ =~= old(self)@.push((k@, v@)),
    {
        self.entries.push((k, v));
    }
}

/// An empty configuration.
pub fn empty() -> (r: Properties)
    ensures
        r@ =~= Seq::<(Seq<char>, Seq<char>)>::empty(),
{
    Properties { entries: Vec::new() }
}

/// A default `peer` mode configuration: just `mode = peer`.
pub fn peer() -> (r: Properties)
    ensures
        r@ =~= seq![("mode"@, "peer"@)],
{
    let mut config = empty();
    config.insert("mode".to_owned(), "peer".to_owned());
    config
}

/// The default configuration: `peer` mode.
pub fn default() -> (r: Properties)
    ensures
        r@ =~= seq![("mode"@, "peer"@)],
{
    peer()
}

/// A `client` mode configuration, connecting to `peer` when one is
/// given.
pub fn client(peer: Option<String>) -> (r: Properties)
    ensures
        match peer {
            Some(p) => r@ =~= seq![("mode"@, "client"@), ("peer"@, p@)],
            None => r@ =~= seq![("mode"@, "client"@)],
        },
{
    let mut config = empty();
    config.insert("mode".to_owned(), "client".to_owned());
    match peer {
        Some(p) => {
            config.insert("peer".to_owned(), p);
        },
        None => {
        },
    }
    config
}

/// Splitting a byte run on commas, with the piece built so far.
pub open spec fn split_acc(s: Seq<u8>, cur: Seq<u8>) -> Seq<Seq<u8>>
    decreases s.len(),
{
    if s.len() == 0 {
        seq![cur]
    } else if s[0] == 44 {
        seq![cur] + split_acc(s.skip(1), Seq::empty())
    } else {
        split_acc(s.skip(1), cur.push(s[0]))
    }
}

/// The comma-separated pieces of a byte run. An empty run yields one
/// empty piece, as splitting an empty string does.
pub open spec fn split_commas(s: Seq<u8>) -> Seq<Seq<u8>> {
    split_acc(s, Seq::empty())
}

/// Splits `v` on commas.
fn split_commas_vec(v: &Vec<u8>) -> (r: Vec<Vec<u8>>)
    ensures
        r@.map(|i: int, c: Vec<u8>| c@) =~= split_commas(v@),
{
    let mut out: Vec<Vec<u8>> = Vec::new();
    let mut cur: Vec<u8> = Vec::new();
    let mut i: usize = 0;
    let n = v.len();
    proof {
        assert(v@.skip(0) =~= v@);
        assert(out@.map(|k: int, c: Vec<u8>| c@) + split_acc(v@, cur@) =~= split_acc(v@, cur@));
    }
    while i < n
        invariant
            i <= n,
            n == v@.len(),
            split_commas(v@) =~= out@.map(|k: int, c: Vec<u8>| c@) + split_acc(
                v@.skip(i as int),
                cur@,
            ),
        decreases n - i,
    {
        let ghost out_pre = out@;
        let ghost cur_pre = cur@;
        let x = v[i];
        if x == 44 {
            out.push(cur);
            cur = Vec::new();
            proof {
                assert(out@.map(|k: int, c: Vec<u8>| c@) =~= out_pre.map(
                    |k: int, c: Vec<u8>| c@,
                ).push(cur_pre));
            }
        } else {
            cur.push(x);
        }
        proof {
            assert(v@.skip(i as int).skip(1) =~= v@.skip(i + 1));
            assert(v@.skip(i as int)[0] == v@[i as int]);
        }
        i = i + 1;
    }
    proof {
        assert(v@.skip(n as int) =~= Seq::<u8>::empty());
    }
    out.push(cur);
    proof {
        assert(out@.map(|k: int, c: Vec<u8>| c@) =~= split_commas(v@));
    }
    out
}

/// The numeric pairs one property contributes: nothing for an
/// unrecognized key, else one pair per comma-separated piece of the
/// value's bytes.
pub open spec fn zn_pairs_of(k: Seq<char>, v: Seq<char>) -> Seq<(u64, Seq<u8>)> {
    match key_code(k) {
        Some(z) => split_commas(encode_utf8(v)).map(|i: int, c: Seq<u8>| (z, c)),
        None => Seq::empty(),
    }
}

/// The numeric pairs of a whole property map, in map order.
pub open spec fn zn_props(s: Seq<(Seq<char>, Seq<char>)>) -> Seq<(u64, Seq<u8>)>
    decreases s.len(),
{
    if s.len() == 0 {
        Seq::empty()
    } else {
        zn_pairs_of(s[0].0, s[0].1) + zn_props(s.skip(1))
    }
}

impl Properties {
    /// Translates the map into numeric-keyed byte values, dropping
    /// unrecognized keys and splitting each value on commas.
    pub fn to_zn_properties(&self) -> (r: Vec<(u64, Vec<u8>)>)
        ensures
            r@.map(|i: int, p: (u64, Vec<u8>)| (p.0, p.1@)) =~= zn_props(self@),
    {
        let mut out: Vec<(u64, Vec<u8>)> = Vec::new();
        let mut i: usize = 0;
        let n = self.entries.len();
        proof {
            assert(self@.skip(0) =~= self@);
            assert(out@.map(|k: int, p: (u64, Vec<u8>)| (p.0, p.1@)) + zn_props(self@)
                =~= zn_props(self@));
        }
        while i < n
            invariant
                i <= n,
                n == self.entries@.len(),
                n == self@.len(),
                self@ =~= self.entries@.map(|k: int, p: (String, String)| (p.0@, p.1@)),
                out@.map(|k: int, p: (u64, Vec<u8>)| (p.0, p.1@)) + zn_props(self@.skip(i as int))
                    =~= zn_props(self@),
            decreases n - i,
        {
            let ghost out_pre = out@;
            let k = &self.entries[i].0;
            let v = &self.entries[i].1;
            match str_key_to_zn_key(k.as_str()) {
                Some(z) => {
                    let vb = v.as_str().as_bytes_vec();
                    let mut chunks = split_commas_vec(&vb);
                    let ghost chunks_v = chunks@.map(|k2: int, c: Vec<u8>| c@);
                    let mut j: usize = 0;
                    let cn = chunks.len();
                    proof {
                        assert(chunks_v.skip(0) =~= chunks_v);
                        assert(out@.map(|k2: int, p: (u64, Vec<u8>)| (p.0, p.1@)) =~= out_pre.map(
                            |k2: int, p: (u64, Vec<u8>)| (p.0, p.1@),
                        ) + chunks_v.take(0).map(|k2: int, c: Seq<u8>| (z, c)));
                    }
                    while j < cn
                        invariant
                            j <= cn,
                            cn == chunks_v.len(),
                            chunks@.len() == cn - j,
                            chunks@.map(|k2: int, c: Vec<u8>| c@) =~= chunks_v.skip(j as int),
                            out@.map(|k2: int, p: (u64, Vec<u8>)| (p.0, p.1@)) =~= out_pre.map(
                                |k2: int, p: (u64, Vec<u8>)| (p.0, p.1@),
                            ) + chunks_v.take(j as int).map(|k2: int, c: Seq<u8>| (z, c)),
                        decreases cn - j,
                    {
                        let ghost out_mid = out@;
                        let ghost chunks_pre = chunks@;
                        let c = chunks.remove(0);
                        proof {
                            assert(chunks_pre.map(|k2: int, c2: Vec<u8>| c2@)[0] == chunks_v.skip(
                                j as int,
                            )[0]);
                            assert(chunks_v.skip(j as int)[0] == chunks_v[j as int]);
                            assert(c@ == chunks_v[j as int]);
                            assert(chunks@.map(|k2: int, c2: Vec<u8>| c2@) =~= chunks_pre.map(
                                |k2: int, c2: Vec<u8>| c2@,
                            ).skip(1));
                            assert(chunks_v.skip(j as int).skip(1) =~= chunks_v.skip(j + 1));
                        }
                        out.push((z, c));
                        proof {
                            assert(out@.map(|k2: int, p: (u64, Vec<u8>)| (p.0, p.1@))
                                =~= out_mid.map(|k2: int, p: (u64, Vec<u8>)| (p.0, p.1@)).push(
                                (z, c@),
                            ));
                            assert(chunks_v.take(j + 1).map(|k2: int, c2: Seq<u8>| (z, c2))
                                =~= chunks_v.take(j as int).map(
                                |k2: int, c2: Seq<u8>| (z, c2),
                            ).push((z, chunks_v[j as int])));
                        }
                        j = j + 1;
                    }
                    proof {
                        assert(chunks_v.take(cn as int) =~= chunks_v);
                        assert(vb@ == encode_utf8(self@[i as int].1));
                        assert(zn_pairs_of(self@[i as int].0, self@[i as int].1) =~= chunks_v.map(
                            |k2: int, c: Seq<u8>| (z, c),
                        ));
                    }
                },
                None => {
                    proof {
                        assert(zn_pairs_of(self@[i as int].0, self@[i as int].1)
                            =~= Seq::<(u64, Seq<u8>)>::empty());
                    }
                },
            }
            proof {
                assert(self@.skip(i as int)[0] == self@[i as int]);
                assert(self@.skip(i as int).skip(1) =~= self@.skip(i + 1));
                assert(zn_props(self@.skip(i as int)) =~= zn_pairs_of(
                    self@[i as int].0,
                    self@[i as int].1,
                ) + zn_props(self@.skip(i + 1)));
                assert(out@.map(|k: int, p: (u64, Vec<u8>)| (p.0, p.1@)) + zn_props(
                    self@.skip(i + 1),
                ) =~= zn_props(self@));
            }
            i = i + 1;
        }
        proof {
            assert(self@.skip(n as int) =~= Seq::<(Seq<char>, Seq<char>)>::empty());
            assert(out@.map(|k: int, p: (u64, Vec<u8>)| (p.0, p.1@)) =~= zn_props(self@));
        }
        out
    }
}

} // verus!
