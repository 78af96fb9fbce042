//! Trust-on-first-use store for server identities.
//!
//! The store maps an endpoint (address and port) to the identity fingerprint
//! that was presented the first time the endpoint was contacted. On every
//! later contact the presented fingerprint must match the stored one exactly;
//! a mismatch is reported and never resolved by overwriting the record.

use vstd::prelude::*;

verus! {

/// The decision taken for one presented server identity.
#[derive(Clone, Copy, PartialEq, Eq, Structural, Debug)]
pub enum VerifyOutcome {
    /// A record for the endpoint existed and matched the presented identity.
    Trusted,
    /// No record existed; the presented identity was stored and is trusted
    /// for this connection.
    Learned,
    /// A record existed and differs from the presented identity; the stored
    /// record is kept unchanged.
    Mismatch,
}

/// One persistent trust record: an endpoint and its expected fingerprint.
#[derive(Debug, PartialEq, Eq)]
pub struct TrustRecord {
    pub address: String,
    pub port: u16,
    pub fingerprint: String,
}

/// The mathematical model of one record.
pub ghost struct TrustRecordView {
    pub address: Seq<char>,
    pub port: u16,
    pub fingerprint: Seq<char>,
}

impl View for TrustRecord {
    type V = TrustRecordView;

    open spec fn view(&self) -> TrustRecordView {
        TrustRecordView { address: self.address@, port: self.port, fingerprint: self.fingerprint@ }
    }
}

/// The set of records, modelled as a map from endpoint to fingerprint.
#[derive(Debug)]
pub struct TrustStore {
    pub records: Vec<TrustRecord>,
}

/// Endpoint-to-fingerprint map described by a sequence of records; when an
/// endpoint repeats, the later record wins.
pub open spec fn records_model(rs: Seq<TrustRecordView>) -> Map<(Seq<char>, u16), Seq<char>>
    decreases rs.len(),
{
    if rs.len() == 0 {
        Map::empty()
    } else {
        records_model(rs.drop_last()).insert(
            (rs.last().address, rs.last().port),
            rs.last().fingerprint,
        )
    }
}

/// One verification step over the model: learn an unknown endpoint, accept a
/// matching fingerprint, reject a differing one without changing the map.
pub open spec fn spec_verify(
    m: Map<(Seq<char>, u16), Seq<char>>,
    endpoint: (Seq<char>, u16),
    fingerprint: Seq<char>,
) -> (VerifyOutcome, Map<(Seq<char>, u16), Seq<char>>) {
    if !m.contains_key(endpoint) {
        (VerifyOutcome::Learned, m.insert(endpoint, fingerprint))
    } else if m[endpoint] == fingerprint {
        (VerifyOutcome::Trusted, m)
    } else {
        (VerifyOutcome::Mismatch, m)
    }
}

impl TrustStore {
    /// Endpoints of the stored records, in storage order.
    pub open spec fn endpoints(self) -> Seq<(Seq<char>, u16)> {
        self.records@.map_values(|r: TrustRecord| (r.address@, r.port))
    }

    /// Well-formed: no endpoint is recorded twice.
    pub open spec fn wf(self) -> bool {
        forall|i: int, j: int|
            0 <= i < j < self.endpoints().len() ==> #[trigger] self.endpoints()[i]
                != #[trigger] self.endpoints()[j]
    }

    /// The endpoint-to-fingerprint map this store represents.
    pub open spec fn model(self) -> Map<(Seq<char>, u16), Seq<char>> {
        records_model(self.records@.map_values(|r: TrustRecord| r@))
    }

    pub fn new() -> (r: Self)
        ensures
            r.wf(),
            r.model() == Map::<(Seq<char>, u16), Seq<char>>::empty(),
    {
        TrustStore { records: Vec::new() }
    }

    /// Decide the fate of one presented identity, learning it when the
    /// endpoint is new. The store changes exactly as `spec_verify` says: it
    /// grows by one record on `Learned` and stays unchanged otherwise.
    #[verifier::loop_isolation(false)]
    pub fn verify(&mut self, address: &String, port: u16, fingerprint: &String) -> (r:
        VerifyOutcome)
        requires
            old(self).wf(),
        ensures
            final(self).wf(),
            r == spec_verify(old(self).model(), (address@, port), fingerprint@).0,
            final(self).model() == spec_verify(old(self).model(), (address@, port), fingerprint@).1,
    {
        let ghost rvs = self.records@.map_values(|rec: TrustRecord| rec@);
        let ghost eps = self.endpoints();
        proof {
            lemma_records_model_has_endpoint(rvs, (address@, port));
            assert(forall|j: int|
                0 <= j < rvs.len() ==> #[trigger] eps[j] == ((rvs[j]).address, (rvs[j]).port));
        }
        let mut i: usize = 0;
        while i < self.records.len()
            invariant
                i <= self.records.len(),
                forall|j: int|
                    0 <= j < i ==> ((#[trigger] rvs[j]).address, rvs[j].port) != (address@, port),
            decreases self.records.len() - i,
        {
            let rec = &self.records[i];
            if rec.address.eq(address) && rec.port == port {
                proof {
                    assert(rvs[i as int] == self.records@[i as int]@);
                    lemma_records_model_at(rvs, i as int, eps);
                }
                if rec.fingerprint.eq(fingerprint) {
                    return VerifyOutcome::Trusted;
                } else {
                    return VerifyOutcome::Mismatch;
                }
            }
            i += 1;
        }
        let learned = TrustRecord {
            address: address.clone(),
            port,
            fingerprint: fingerprint.clone(),
        };
        proof {
            assert(forall|j: int|
                0 <= j < eps.len() ==> #[trigger] eps[j] != (address@, port));
            assert(!self.model().contains_key((address@, port)));
        }
        self.records.push(learned);
        proof {
            let nv = TrustRecordView { address: address@, port, fingerprint: fingerprint@ };
            assert(self.records@.map_values(|rec: TrustRecord| rec@) =~= rvs.push(nv));
            assert(self.endpoints() =~= eps.push((address@, port)));
            assert(rvs.push(nv).drop_last() =~= rvs);
            assert(rvs.push(nv).last() == nv);
            assert(self.model() =~= old(self).model().insert((address@, port), fingerprint@));
            assert forall|a: int, b: int|
                0 <= a < b < self.endpoints().len() implies #[trigger] self.endpoints()[a]
                != #[trigger] self.endpoints()[b] by {
                if b < eps.len() {
                    assert(eps[a] != eps[b]);
                } else {
                    assert(self.endpoints()[b] == (address@, port));
                    assert(eps[a] != (address@, port));
                }
            }
        }
        VerifyOutcome::Learned
    }

    /// Add a record for an unknown endpoint; an existing record is never
    /// replaced. Used when loading persisted records back into a store.
    pub fn insert(&mut self, rec: &TrustRecord) -> (added: bool)
        requires
            old(self).wf(),
        ensures
            final(self).wf(),
            added == !old(self).model().contains_key((rec.address@, rec.port)),
            added ==> final(self).model() == old(self).model().insert(
                (rec.address@, rec.port),
                rec.fingerprint@,
            ),
            !added ==> final(self).model() == old(self).model(),
    {
        match self.verify(&rec.address, rec.port, &rec.fingerprint) {
            VerifyOutcome::Learned => true,
            VerifyOutcome::Trusted => false,
            VerifyOutcome::Mismatch => false,
        }
    }
}

/// The model contains an endpoint exactly when some record carries it.
pub proof fn lemma_records_model_has_endpoint(rs: Seq<TrustRecordView>, ep: (Seq<char>, u16))
    ensures
        records_model(rs).contains_key(ep) <==> exists|i: int|
            0 <= i < rs.len() && ((#[trigger] rs[i]).address, rs[i].port) == ep,
    decreases rs.len(),
{
    if rs.len() > 0 {
        let sub = rs.drop_last();
        lemma_records_model_has_endpoint(sub, ep);
        assert(forall|i: int| 0 <= i < sub.len() ==> sub[i] == rs[i]);
        if (rs.last().address, rs.last().port) == ep {
            assert(((rs[rs.len() - 1]).address, rs[rs.len() - 1].port) == ep);
        } else if records_model(rs).contains_key(ep) {
            let j = choose|j: int|
                0 <= j < sub.len() && ((#[trigger] sub[j]).address, sub[j].port) == ep;
            assert(((rs[j]).address, rs[j].port) == ep);
        }
    }
}

/// With distinct endpoints, the model maps each record's endpoint to that
/// record's fingerprint.
pub proof fn lemma_records_model_at(
    rs: Seq<TrustRecordView>,
    i: int,
    eps: Seq<(Seq<char>, u16)>,
)
    requires
        0 <= i < rs.len(),
        eps.len() == rs.len(),
        forall|j: int| 0 <= j < rs.len() ==> #[trigger] eps[j] == ((#[trigger] rs[j]).address, rs[j].port),
        forall|a: int, b: int| 0 <= a < b < eps.len() ==> #[trigger] eps[a] != #[trigger] eps[b],
    ensures
        records_model(rs).contains_key((rs[i].address, rs[i].port)),
        records_model(rs)[(rs[i].address, rs[i].port)] == rs[i].fingerprint,
    decreases rs.len(),
{
    let sub = rs.drop_last();
    if i == rs.len() - 1 {
    } else {
        assert(forall|x: int| 0 <= x < sub.len() ==> sub[x] == rs[x]);
        lemma_records_model_at(sub, i, eps.drop_last());
        assert((rs[i].address, rs[i].port) != (rs[rs.len() - 1].address, rs[rs.len() - 1].port))
            by {
            assert(eps[i] != eps[rs.len() - 1]);
        }
    }
}

/// The decimal digits of a port number, most significant first, as the bytes
/// of a trust-store line carry them.
pub open spec fn port_digits(p: u16) -> Seq<u8>
    decreases p,
{
    if p < 10 {
        seq![(48 + p) as u8]
    } else {
        port_digits(p / 10).push((48 + p % 10) as u8)
    }
}

/// Is every byte an ASCII decimal digit?
pub open spec fn all_digits(s: Seq<u8>) -> bool {
    forall|i: int| 0 <= i < s.len() ==> 48 <= #[trigger] s[i] <= 57
}

/// The number a sequence of ASCII decimal digits spells.
pub open spec fn digits_value(s: Seq<u8>) -> int
    decreases s.len(),
{
    if s.len() == 0 {
        0
    } else {
        digits_value(s.drop_last()) * 10 + (s.last() - 48)
    }
}

/// The digits of a port spell that port, and nothing but digits.
pub proof fn lemma_port_digits_value(p: u16)
    ensures
        all_digits(port_digits(p)),
        digits_value(port_digits(p)) == p,
        port_digits(p).len() >= 1,
    decreases p,
{
    if p < 10 {
        assert(port_digits(p) == seq![(48 + p) as u8]);
        assert(port_digits(p).drop_last() =~= Seq::<u8>::empty());
        assert(port_digits(p).last() == (48 + p) as u8);
        assert(digits_value(Seq::<u8>::empty()) == 0);
        assert(digits_value(port_digits(p)) == 0 * 10 + ((48 + p) as u8 - 48));
    } else {
        lemma_port_digits_value(p / 10);
        assert(port_digits(p) == port_digits(p / 10).push((48 + p % 10) as u8));
        assert(port_digits(p).drop_last() =~= port_digits(p / 10));
        assert(port_digits(p).last() == (48 + p % 10) as u8);
        assert(digits_value(port_digits(p)) == (p / 10) * 10 + (p % 10));
        assert(p == (p / 10) * 10 + (p % 10)) by (nonlinear_arith);
    }
}

/// Write a port as the decimal digit bytes of a trust-store line.
pub fn format_port(p: u16) -> (r: Vec<u8>)
    ensures
        r@ == port_digits(p),
    decreases p,
{
    if p < 10 {
        let mut v: Vec<u8> = Vec::new();
        v.push(48 + p as u8);
        proof {
            assert(v@ =~= port_digits(p));
        }
        v
    } else {
        let mut v = format_port(p / 10);
        v.push(48 + (p % 10) as u8);
        v
    }
}

/// Read a port from the decimal digit bytes of a trust-store line: exactly
/// the digit strings whose value fits a port are accepted.
#[verifier::loop_isolation(false)]
pub fn parse_port(s: &[u8]) -> (r: Option<u16>)
    ensures
        r matches Some(p) ==> s@.len() >= 1 && all_digits(s@) && digits_value(s@) == p,
        r is None ==> s@.len() == 0 || !all_digits(s@) || digits_value(s@) > u16::MAX,
{
    if s.len() == 0 {
        return None;
    }
    let mut value: u32 = 0;
    let mut i: usize = 0;
    while i < s.len()
        invariant
            i <= s.len(),
            value == digits_value(s@.take(i as int)),
            value <= 65535,
            all_digits(s@.take(i as int)),
        decreases s.len() - i,
    {
        let b = s[i];
        if b < 48 || b > 57 {
            proof {
                assert(!(48 <= s@[i as int] <= 57));
            }
            return None;
        }
        proof {
            assert(s@.take(i as int + 1).drop_last() =~= s@.take(i as int));
            assert(s@.take(i as int + 1).last() == s@[i as int]);
        }
        value = value * 10 + (b - 48) as u32;
        if value > 65535 {
            proof {
                lemma_digits_value_grows(s@, i as int + 1);
            }
            return None;
        }
        i += 1;
    }
    proof {
        assert(s@.take(s@.len() as int) =~= s@);
    }
    Some(value as u16)
}

/// Once a prefix spells more than a port can hold, the whole byte string
/// does too: a further byte at most takes off 48 and at least tenfolds.
proof fn lemma_digits_value_grows(s: Seq<u8>, i: int)
    requires
        0 <= i <= s.len(),
        digits_value(s.take(i)) > u16::MAX,
    ensures
        digits_value(s) > u16::MAX,
    decreases s.len() - i,
{
    if i == s.len() {
        assert(s.take(i) =~= s);
    } else {
        assert(s.take(i + 1).drop_last() =~= s.take(i));
        assert(s.take(i + 1).last() == s[i]);
        assert(s[i] >= 0);
        lemma_digits_value_grows(s, i + 1);
    }
}

/// Trust-on-first-use, stated over the model: first contact with an unknown
/// endpoint learns the presented fingerprint; afterwards the same fingerprint
/// is trusted, and any other fingerprint is rejected without changing the
/// stored record.
pub proof fn lemma_trust_on_first_use(
    m: Map<(Seq<char>, u16), Seq<char>>,
    endpoint: (Seq<char>, u16),
    fingerprint: Seq<char>,
    other_fingerprint: Seq<char>,
)
    requires
        !m.contains_key(endpoint),
    ensures
        spec_verify(m, endpoint, fingerprint).0 == VerifyOutcome::Learned,
        spec_verify(m, endpoint, fingerprint).1[endpoint] == fingerprint,
        ({
            let learned = spec_verify(m, endpoint, fingerprint).1;
            &&& spec_verify(learned, endpoint, fingerprint).0 == VerifyOutcome::Trusted
            &&& spec_verify(learned, endpoint, fingerprint).1 == learned
            &&& other_fingerprint != fingerprint ==> spec_verify(learned, endpoint, other_fingerprint).0
                == VerifyOutcome::Mismatch
            &&& other_fingerprint != fingerprint ==> spec_verify(learned, endpoint, other_fingerprint).1
                == learned
        }),
{
}

} // verus!
