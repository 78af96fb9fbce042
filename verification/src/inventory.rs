//! Hierarchical inventory resolution.
//!
//! An inventory is a tree of configuration fragments. A fragment whose base
//! name is the reserved token `defaults` provides group defaults for its
//! directory and all descendants; any other fragment describes one host,
//! identified by its path relative to the root with the extension stripped.
//! A host's settings are folded from its own fragment and the `defaults`
//! fragments of all its ancestor directories, nearest first, the nearer
//! fragment winning on every conflict.

use vstd::prelude::*;

verus! {

/// The port used when no fragment in scope ever sets `ssh_port`.
pub const DEFAULT_SSH_PORT: u16 = 22;

/// A single configuration fragment: the contents of one file of the
/// inventory tree, either a host fragment or a group-default fragment.
pub struct Manifest {
    pub address: Option<String>,
    pub ssh_user: Option<String>,
    pub ssh_port: Option<u16>,
    /// Additional string-valued keys, preserved verbatim; keys are distinct.
    pub extra_keys: Vec<(String, String)>,
}

/// Mathematical model of a fragment.
#[verifier::ext_equal]
pub ghost struct ManifestView {
    pub address: Option<Seq<char>>,
    pub ssh_user: Option<Seq<char>>,
    pub ssh_port: Option<u16>,
    pub extra: Map<Seq<char>, Seq<char>>,
}

/// View of an optional string.
pub open spec fn opt_str_view(o: Option<String>) -> Option<Seq<char>> {
    match o {
        Some(s) => Some(s@),
        None => None,
    }
}

/// Views of the entries of a key-value list.
pub open spec fn entry_views(kvs: Seq<(String, String)>) -> Seq<(Seq<char>, Seq<char>)> {
    kvs.map_values(|kv: (String, String)| (kv.0@, kv.1@))
}

/// All keys of a key-value list are distinct.
pub open spec fn unique_keys<K, V>(kvs: Seq<(K, V)>) -> bool {
    forall|i: int, j: int|
        0 <= i < j < kvs.len() ==> (#[trigger] kvs[i]).0 != (#[trigger] kvs[j]).0
}

/// The map described by a key-value list; when a key repeats, the later
/// entry wins.
pub open spec fn assoc_map<K, V>(kvs: Seq<(K, V)>) -> Map<K, V>
    decreases kvs.len(),
{
    if kvs.len() == 0 {
        Map::empty()
    } else {
        assoc_map(kvs.drop_last()).insert(kvs.last().0, kvs.last().1)
    }
}

/// The map contains a key exactly when some entry carries it.
pub proof fn lemma_assoc_map_has_key<K, V>(kvs: Seq<(K, V)>, k: K)
    ensures
        assoc_map(kvs).contains_key(k) <==> exists|i: int|
            0 <= i < kvs.len() && (#[trigger] kvs[i]).0 == k,
    decreases kvs.len(),
{
    if kvs.len() > 0 {
        let sub = kvs.drop_last();
        lemma_assoc_map_has_key(sub, k);
        assert(forall|i: int| 0 <= i < sub.len() ==> sub[i] == kvs[i]);
        if kvs.last().0 == k {
            assert((kvs[kvs.len() - 1]).0 == k);
        } else if assoc_map(kvs).contains_key(k) {
            let j = choose|j: int| 0 <= j < sub.len() && (#[trigger] sub[j]).0 == k;
            assert((kvs[j]).0 == k);
        }
    }
}

/// With distinct keys, the map sends each entry's key to that entry's value.
pub proof fn lemma_assoc_map_at<K, V>(kvs: Seq<(K, V)>, i: int)
    requires
        unique_keys(kvs),
        0 <= i < kvs.len(),
    ensures
        assoc_map(kvs).contains_key((kvs[i]).0),
        assoc_map(kvs)[(kvs[i]).0] == (kvs[i]).1,
    decreases kvs.len(),
{
    if i < kvs.len() - 1 {
        let sub = kvs.drop_last();
        assert(forall|x: int| 0 <= x < sub.len() ==> sub[x] == kvs[x]);
        lemma_assoc_map_at(sub, i);
        assert((kvs[i]).0 != (kvs[kvs.len() - 1]).0);
    }
}

impl View for Manifest {
    type V = ManifestView;

    open spec fn view(&self) -> ManifestView {
        ManifestView {
            address: opt_str_view(self.address),
            ssh_user: opt_str_view(self.ssh_user),
            ssh_port: self.ssh_port,
            extra: assoc_map(entry_views(self.extra_keys@)),
        }
    }
}

/// The order-sensitive combination of two fragments: `near` wins on every
/// conflict, both on the scalar fields and on the extra keys.
pub open spec fn combined(near: ManifestView, far: ManifestView) -> ManifestView {
    ManifestView {
        address: if near.address is Some {
            near.address
        } else {
            far.address
        },
        ssh_user: if near.ssh_user is Some {
            near.ssh_user
        } else {
            far.ssh_user
        },
        ssh_port: if near.ssh_port is Some {
            near.ssh_port
        } else {
            far.ssh_port
        },
        extra: far.extra.union_prefer_right(near.extra),
    }
}

/// Does a key-value list hold the given key?
#[verifier::loop_isolation(false)]
fn assoc_contains(kvs: &Vec<(String, String)>, key: &String) -> (r: bool)
    ensures
        r == assoc_map(entry_views(kvs@)).contains_key(key@),
{
    proof {
        lemma_assoc_map_has_key(entry_views(kvs@), key@);
    }
    let mut i: usize = 0;
    while i < kvs.len()
        invariant
            i <= kvs.len(),
            forall|j: int| 0 <= j < i ==> (#[trigger] entry_views(kvs@)[j]).0 != key@,
        decreases kvs.len() - i,
    {
        if kvs[i].0.eq(key) {
            proof {
                assert((entry_views(kvs@)[i as int]).0 == key@);
            }
            return true;
        }
        i += 1;
    }
    false
}

fn clone_opt_string(o: &Option<String>) -> (r: Option<String>)
    ensures
        opt_str_view(r) == opt_str_view(*o),
{
    match o {
        Some(s) => Some(s.clone()),
        None => None,
    }
}

impl Manifest {
    /// Well-formed: the extra keys are distinct.
    pub open spec fn wf(self) -> bool {
        unique_keys(entry_views(self.extra_keys@))
    }

    /// Fill the fields `self` leaves empty with the values of `other`: the
    /// pure combine of two fragments, `self` being the nearer one.
    pub fn or(self, other: &Self) -> (r: Self)
        requires
            self.wf(),
            other.wf(),
        ensures
            r.wf(),
            r@ == combined(self@, other@),
    {
        let Manifest { address, ssh_user, ssh_port, extra_keys: own_extra } = self;
        let ghost sv = entry_views(own_extra@);
        let ghost ov = entry_views(other.extra_keys@);
        let ghost self_map = assoc_map(sv);
        let ghost other_map = assoc_map(ov);

        let mut extra_keys: Vec<(String, String)> = Vec::new();

        // Entries of `other` that `self` does not shadow.
        let mut i: usize = 0;
        while i < other.extra_keys.len()
            invariant
                i <= other.extra_keys.len(),
                sv == entry_views(own_extra@),
                ov == entry_views(other.extra_keys@),
                self_map == assoc_map(sv),
                unique_keys(sv),
                unique_keys(ov),
                unique_keys(entry_views(extra_keys@)),
                forall|k: Seq<char>|
                    #[trigger] assoc_map(entry_views(extra_keys@)).contains_key(k) <==> (assoc_map(
                        ov.take(i as int),
                    ).contains_key(k) && !self_map.contains_key(k)),
                forall|k: Seq<char>|
                    #[trigger] assoc_map(entry_views(extra_keys@)).contains_key(k) ==> assoc_map(
                        entry_views(extra_keys@),
                    )[k] == assoc_map(ov.take(i as int))[k],
            decreases other.extra_keys.len() - i,
        {
            let ghost cur = entry_views(extra_keys@);
            let ghost prefix = ov.take(i as int);
            proof {
                assert(ov.take(i as int + 1).drop_last() =~= prefix);
                assert(ov.take(i as int + 1).last() == ov[i as int]);
                assert(assoc_map(ov.take(i as int + 1)) == assoc_map(prefix).insert(
                    (ov[i as int]).0,
                    (ov[i as int]).1,
                ));
            }
            let shadowed = assoc_contains(&own_extra, &other.extra_keys[i].0);
            if !shadowed {
                let k = other.extra_keys[i].0.clone();
                let v = other.extra_keys[i].1.clone();
                proof {
                    assert((ov[i as int]).0 == k@ && (ov[i as int]).1 == v@);
                    // The key is new to the accumulator: it only holds keys of
                    // the strict prefix, and the keys of `other` are distinct.
                    if assoc_map(cur).contains_key(k@) {
                        lemma_assoc_map_has_key(prefix, k@);
                        let j = choose|j: int|
                            0 <= j < prefix.len() && (#[trigger] prefix[j]).0 == k@;
                        assert((ov[j]).0 == (ov[i as int]).0);
                        assert(false);
                    }
                    lemma_assoc_map_has_key(cur, k@);
                }
                extra_keys.push((k, v));
                proof {
                    assert(entry_views(extra_keys@) =~= cur.push((k@, v@)));
                    assert(entry_views(extra_keys@).drop_last() =~= cur);
                    assert(assoc_map(entry_views(extra_keys@)) == assoc_map(cur).insert(k@, v@));
                    assert(unique_keys(entry_views(extra_keys@)));
                }
            }
            i += 1;
        }

        proof {
            assert(ov.take(other.extra_keys@.len() as int) =~= ov);
        }

        // All entries of `self`.
        let ghost base_map = assoc_map(entry_views(extra_keys@));
        let mut j: usize = 0;
        while j < own_extra.len()
            invariant
                j <= own_extra.len(),
                sv == entry_views(own_extra@),
                self_map == assoc_map(sv),
                other_map == assoc_map(ov),
                unique_keys(sv),
                unique_keys(entry_views(extra_keys@)),
                forall|k: Seq<char>|
                    #[trigger] base_map.contains_key(k) <==> (other_map.contains_key(k)
                        && !self_map.contains_key(k)),
                forall|k: Seq<char>|
                    #[trigger] base_map.contains_key(k) ==> base_map[k] == other_map[k],
                forall|k: Seq<char>|
                    #[trigger] assoc_map(entry_views(extra_keys@)).contains_key(k) <==> (
                    base_map.contains_key(k) || assoc_map(sv.take(j as int)).contains_key(k)),
                forall|k: Seq<char>|
                    #[trigger] assoc_map(entry_views(extra_keys@)).contains_key(k) ==> assoc_map(
                        entry_views(extra_keys@),
                    )[k] == if assoc_map(sv.take(j as int)).contains_key(k) {
                        assoc_map(sv.take(j as int))[k]
                    } else {
                        base_map[k]
                    },
            decreases own_extra.len() - j,
        {
            let ghost cur = entry_views(extra_keys@);
            let ghost prefix = sv.take(j as int);
            proof {
                assert(sv.take(j as int + 1).drop_last() =~= prefix);
                assert(sv.take(j as int + 1).last() == sv[j as int]);
                assert(assoc_map(sv.take(j as int + 1)) == assoc_map(prefix).insert(
                    (sv[j as int]).0,
                    (sv[j as int]).1,
                ));
            }
            let k = own_extra[j].0.clone();
            let v = own_extra[j].1.clone();
            proof {
                assert((sv[j as int]).0 == k@ && (sv[j as int]).1 == v@);
                lemma_assoc_map_at(sv, j as int);
                assert(self_map.contains_key(k@));
                if assoc_map(prefix).contains_key(k@) {
                    lemma_assoc_map_has_key(prefix, k@);
                    let l = choose|l: int| 0 <= l < prefix.len() && (#[trigger] prefix[l]).0 == k@;
                    assert((sv[l]).0 == (sv[j as int]).0);
                    assert(false);
                }
                lemma_assoc_map_has_key(cur, k@);
            }
            extra_keys.push((k, v));
            proof {
                assert(entry_views(extra_keys@) =~= cur.push((k@, v@)));
                assert(entry_views(extra_keys@).drop_last() =~= cur);
                assert(assoc_map(entry_views(extra_keys@)) == assoc_map(cur).insert(k@, v@));
                assert(unique_keys(entry_views(extra_keys@)));
            }
            j += 1;
        }

        proof {
            assert(sv.take(own_extra@.len() as int) =~= sv);
        }

        let merged_address = match address {
            Some(a) => Some(a),
            None => clone_opt_string(&other.address),
        };
        let merged_user = match ssh_user {
            Some(u) => Some(u),
            None => clone_opt_string(&other.ssh_user),
        };
        let merged_port = match ssh_port {
            Some(p) => Some(p),
            None => other.ssh_port,
        };
        let r = Manifest {
            address: merged_address,
            ssh_user: merged_user,
            ssh_port: merged_port,
            extra_keys,
        };
        proof {
            assert(assoc_map(entry_views(r.extra_keys@)) =~= other_map.union_prefer_right(
                self_map,
            ));
            assert(r@ =~= combined(self@, other@));
        }
        r
    }
}

/// View of a host path: its segments relative to the inventory root, the
/// extension stripped from the last one.
pub open spec fn path_view(p: Seq<String>) -> Seq<Seq<char>> {
    p.map_values(|s: String| s@)
}

/// The fully resolved, immutable configuration of one host.
#[derive(Debug)]
pub struct HostSpec {
    pub path: Vec<String>,
    pub address: String,
    pub ssh_user: String,
    pub ssh_port: u16,
    pub extra_keys: Vec<(String, String)>,
}

/// Mathematical model of a resolved host.
#[verifier::ext_equal]
pub ghost struct HostSpecView {
    pub path: Seq<Seq<char>>,
    pub address: Seq<char>,
    pub ssh_user: Seq<char>,
    pub ssh_port: u16,
    pub extra: Map<Seq<char>, Seq<char>>,
}

impl HostSpecView {
    /// The data-model invariant of a resolved host: the required scalars are
    /// non-empty.
    pub open spec fn valid(self) -> bool {
        self.address.len() > 0 && self.ssh_user.len() > 0
    }
}

impl View for HostSpec {
    type V = HostSpecView;

    open spec fn view(&self) -> HostSpecView {
        HostSpecView {
            path: path_view(self.path@),
            address: self.address@,
            ssh_user: self.ssh_user@,
            ssh_port: self.ssh_port,
            extra: assoc_map(entry_views(self.extra_keys@)),
        }
    }
}

/// A scalar field every host must end up with.
#[derive(Clone, Copy, PartialEq, Eq, Structural, Debug)]
pub enum RequiredField {
    Address,
    SshUser,
}

impl RequiredField {
    /// The key under which fragments supply this field.
    pub fn key_name(&self) -> (r: &'static str)
        ensures
            *self is Address ==> r@ == "address"@,
            *self is SshUser ==> r@ == "ssh_user"@,
    {
        match self {
            RequiredField::Address => "address",
            RequiredField::SshUser => "ssh_user",
        }
    }
}

/// Why an inventory failed to load: a host's fully merged configuration
/// lacks a required field. The error names the field and the host's path.
#[derive(Debug, PartialEq, Eq)]
pub enum InventoryError {
    MissingRequiredField { field: RequiredField, host_path: Vec<String> },
}

impl View for InventoryError {
    type V = (RequiredField, Seq<Seq<char>>);

    open spec fn view(&self) -> (RequiredField, Seq<Seq<char>>) {
        match self {
            InventoryError::MissingRequiredField { field, host_path } => (
                *field,
                path_view(host_path@),
            ),
        }
    }
}

/// Does this optional scalar supply a usable value? An empty string is as
/// good as no value at all: a record must end up with non-empty `address`
/// and `ssh_user`.
pub open spec fn supplies_value(o: Option<Seq<char>>) -> bool {
    o matches Some(s) && s.len() > 0
}

/// Validation of a fully merged fragment: both required fields must be
/// present and non-empty; `ssh_port` falls back to the built-in default.
pub open spec fn spec_validate(m: ManifestView, path: Seq<Seq<char>>) -> Result<
    HostSpecView,
    (RequiredField, Seq<Seq<char>>),
> {
    if !supplies_value(m.address) {
        Err((RequiredField::Address, path))
    } else if !supplies_value(m.ssh_user) {
        Err((RequiredField::SshUser, path))
    } else {
        Ok(
            HostSpecView {
                path,
                address: m.address->0,
                ssh_user: m.ssh_user->0,
                ssh_port: if m.ssh_port is Some {
                    m.ssh_port->0
                } else {
                    DEFAULT_SSH_PORT
                },
                extra: m.extra,
            },
        )
    }
}

impl Manifest {
    /// Turn a fully merged fragment into a host record, or report the first
    /// required field that is missing or empty, together with the host's
    /// path.
    pub fn validate(self, path: Vec<String>) -> (r: Result<HostSpec, InventoryError>)
        requires
            self.wf(),
        ensures
            r matches Ok(h) ==> spec_validate(self@, path_view(path@)) matches Ok(hv) && h@ == hv
                && h@.valid(),
            r matches Err(e) ==> spec_validate(self@, path_view(path@)) matches Err(ev) && e@
                == ev,
    {
        let address_usable = match &self.address {
            Some(a) => !a.as_str().is_empty(),
            None => false,
        };
        if !address_usable {
            return Err(
                InventoryError::MissingRequiredField {
                    field: RequiredField::Address,
                    host_path: path,
                },
            );
        }
        let user_usable = match &self.ssh_user {
            Some(u) => !u.as_str().is_empty(),
            None => false,
        };
        if !user_usable {
            return Err(
                InventoryError::MissingRequiredField {
                    field: RequiredField::SshUser,
                    host_path: path,
                },
            );
        }
        match (self.address, self.ssh_user) {
            (Some(address), Some(ssh_user)) => {
                let h = HostSpec {
                    path,
                    address,
                    ssh_user,
                    ssh_port: match self.ssh_port {
                        Some(p) => p,
                        None => DEFAULT_SSH_PORT,
                    },
                    extra_keys: self.extra_keys,
                };
                proof {
                    assert(h@ =~= spec_validate(self@, path_view(path@))->Ok_0);
                }
                Ok(h)
            },
            _ => unreached(),
        }
    }
}

/// Views of the group-default fragments, keyed by their directory path.
pub open spec fn group_views(gs: Seq<(Vec<String>, Manifest)>) -> Seq<
    (Seq<Seq<char>>, ManifestView),
> {
    gs.map_values(|g: (Vec<String>, Manifest)| (path_view(g.0@), g.1@))
}

/// The group-default fragments that apply to a host, nearest first: for every
/// ancestor directory (prefix of the host path) of length `n - 1` down to the
/// root, the directory's `defaults` fragment, where it has one.
pub open spec fn ancestor_chain(
    path: Seq<Seq<char>>,
    n: nat,
    gm: Map<Seq<Seq<char>>, ManifestView>,
) -> Seq<ManifestView>
    decreases n,
{
    if n == 0 {
        seq![]
    } else {
        let dir = path.take(n - 1);
        if gm.contains_key(dir) {
            seq![gm[dir]] + ancestor_chain(path, (n - 1) as nat, gm)
        } else {
            ancestor_chain(path, (n - 1) as nat, gm)
        }
    }
}

/// Fold a chain of fragments, nearest first, into one: repeated application
/// of the two-fragment combine, the accumulator being nearer.
pub open spec fn fold_chain(acc: ManifestView, rest: Seq<ManifestView>) -> ManifestView
    decreases rest.len(),
{
    if rest.len() == 0 {
        acc
    } else {
        fold_chain(combined(acc, rest[0]), rest.skip(1))
    }
}

/// The full resolution of one host: fold its own fragment with the group
/// defaults of all ancestor directories, nearest first, then validate.
pub open spec fn spec_resolve_host(
    host: ManifestView,
    path: Seq<Seq<char>>,
    gm: Map<Seq<Seq<char>>, ManifestView>,
) -> Result<HostSpecView, (RequiredField, Seq<Seq<char>>)> {
    spec_validate(fold_chain(host, ancestor_chain(path, path.len(), gm)), path)
}

/// The `address` of the first fragment, in nearest-to-farthest order, that
/// supplies one.
pub open spec fn first_address(chain: Seq<ManifestView>) -> Option<Seq<char>>
    decreases chain.len(),
{
    if chain.len() == 0 {
        None
    } else if chain[0].address is Some {
        chain[0].address
    } else {
        first_address(chain.skip(1))
    }
}

/// The `ssh_user` of the first fragment that supplies one.
pub open spec fn first_user(chain: Seq<ManifestView>) -> Option<Seq<char>>
    decreases chain.len(),
{
    if chain.len() == 0 {
        None
    } else if chain[0].ssh_user is Some {
        chain[0].ssh_user
    } else {
        first_user(chain.skip(1))
    }
}

/// The `ssh_port` of the first fragment that supplies one.
pub open spec fn first_port(chain: Seq<ManifestView>) -> Option<u16>
    decreases chain.len(),
{
    if chain.len() == 0 {
        None
    } else if chain[0].ssh_port is Some {
        chain[0].ssh_port
    } else {
        first_port(chain.skip(1))
    }
}

/// The value the nearest fragment whose extra keys contain `k` gives it.
pub open spec fn nearest_extra(chain: Seq<ManifestView>, k: Seq<char>) -> Option<Seq<char>>
    decreases chain.len(),
{
    if chain.len() == 0 {
        None
    } else if chain[0].extra.contains_key(k) {
        Some(chain[0].extra[k])
    } else {
        nearest_extra(chain.skip(1), k)
    }
}

/// Folding a chain resolves every scalar field to the value of the first
/// fragment, in nearest-to-farthest order, that supplies it.
pub proof fn lemma_fold_chain_scalars(acc: ManifestView, rest: Seq<ManifestView>)
    ensures
        fold_chain(acc, rest).address == first_address(seq![acc] + rest),
        fold_chain(acc, rest).ssh_user == first_user(seq![acc] + rest),
        fold_chain(acc, rest).ssh_port == first_port(seq![acc] + rest),
    decreases rest.len(),
{
    let full = seq![acc] + rest;
    assert(full[0] == acc);
    assert(full.skip(1) =~= rest);
    if rest.len() == 0 {
        assert(first_address(rest) is None);
        assert(first_user(rest) is None);
        assert(first_port(rest) is None);
    } else {
        let acc2 = combined(acc, rest[0]);
        lemma_fold_chain_scalars(acc2, rest.skip(1));
        let full2 = seq![acc2] + rest.skip(1);
        assert(full2[0] == acc2);
        assert(full2.skip(1) =~= rest.skip(1));
        assert(first_address(rest) == if rest[0].address is Some {
            rest[0].address
        } else {
            first_address(rest.skip(1))
        });
        assert(first_user(rest) == if rest[0].ssh_user is Some {
            rest[0].ssh_user
        } else {
            first_user(rest.skip(1))
        });
        assert(first_port(rest) == if rest[0].ssh_port is Some {
            rest[0].ssh_port
        } else {
            first_port(rest.skip(1))
        });
    }
}

/// Folding a chain resolves every extra key to the value of the nearest
/// fragment whose extra keys contain it.
pub proof fn lemma_fold_chain_extra(acc: ManifestView, rest: Seq<ManifestView>, k: Seq<char>)
    ensures
        fold_chain(acc, rest).extra.contains_key(k) <==> nearest_extra(seq![acc] + rest, k)
            is Some,
        fold_chain(acc, rest).extra.contains_key(k) ==> Some(fold_chain(acc, rest).extra[k])
            == nearest_extra(seq![acc] + rest, k),
    decreases rest.len(),
{
    let full = seq![acc] + rest;
    assert(full[0] == acc);
    assert(full.skip(1) =~= rest);
    if rest.len() == 0 {
        assert(nearest_extra(rest, k) is None);
    } else {
        let acc2 = combined(acc, rest[0]);
        lemma_fold_chain_extra(acc2, rest.skip(1), k);
        let full2 = seq![acc2] + rest.skip(1);
        assert(full2[0] == acc2);
        assert(full2.skip(1) =~= rest.skip(1));
        assert(nearest_extra(rest, k) == if rest[0].extra.contains_key(k) {
            Some(rest[0].extra[k])
        } else {
            nearest_extra(rest.skip(1), k)
        });
    }
}

/// The merge precedence of the resolver, stated of a whole host: every scalar
/// comes from the nearest fragment of the chain (the host fragment, then each
/// ancestor's group defaults outwards) that supplies it, and every extra key
/// from the nearest fragment whose extra keys contain it.
pub proof fn lemma_resolution_prefers_nearest(
    host: ManifestView,
    path: Seq<Seq<char>>,
    gm: Map<Seq<Seq<char>>, ManifestView>,
    k: Seq<char>,
)
    ensures
        ({
            let chain = seq![host] + ancestor_chain(path, path.len(), gm);
            let folded = fold_chain(host, ancestor_chain(path, path.len(), gm));
            &&& folded.address == first_address(chain)
            &&& folded.ssh_user == first_user(chain)
            &&& folded.ssh_port == first_port(chain)
            &&& (folded.extra.contains_key(k) <==> nearest_extra(chain, k) is Some)
            &&& folded.extra.contains_key(k) ==> Some(folded.extra[k]) == nearest_extra(chain, k)
        }),
{
    lemma_fold_chain_scalars(host, ancestor_chain(path, path.len(), gm));
    lemma_fold_chain_extra(host, ancestor_chain(path, path.len(), gm), k);
}

/// A host whose whole chain leaves a required field without a usable value —
/// no fragment supplies it, or the nearest supplied value is empty — resolves
/// to the error naming that field and the host's path, never to a record.
pub proof fn lemma_missing_field_fails(
    host: ManifestView,
    path: Seq<Seq<char>>,
    gm: Map<Seq<Seq<char>>, ManifestView>,
)
    ensures
        ({
            let chain = seq![host] + ancestor_chain(path, path.len(), gm);
            &&& !supplies_value(first_address(chain)) ==> spec_resolve_host(host, path, gm)
                == Err::<HostSpecView, (RequiredField, Seq<Seq<char>>)>((
                RequiredField::Address,
                path,
            ))
            &&& (supplies_value(first_address(chain)) && !supplies_value(first_user(chain)))
                ==> spec_resolve_host(host, path, gm) == Err::<
                HostSpecView,
                (RequiredField, Seq<Seq<char>>),
            >((RequiredField::SshUser, path))
        }),
{
    lemma_fold_chain_scalars(host, ancestor_chain(path, path.len(), gm));
}

#[verifier::loop_isolation(false)]
fn clone_path(p: &Vec<String>) -> (r: Vec<String>)
    ensures
        path_view(r@) == path_view(p@),
{
    let mut out: Vec<String> = Vec::new();
    let mut i: usize = 0;
    while i < p.len()
        invariant
            i <= p.len(),
            out@.len() == i,
            forall|j: int| 0 <= j < i ==> (#[trigger] out@[j])@ == (p@[j])@,
        decreases p.len() - i,
    {
        out.push(p[i].clone());
        i += 1;
    }
    proof {
        assert(path_view(out@) =~= path_view(p@));
    }
    out
}

#[verifier::loop_isolation(false)]
fn clone_manifest(m: &Manifest) -> (r: Manifest)
    ensures
        r@ == m@,
        entry_views(r.extra_keys@) == entry_views(m.extra_keys@),
{
    let mut extra_keys: Vec<(String, String)> = Vec::new();
    let mut i: usize = 0;
    while i < m.extra_keys.len()
        invariant
            i <= m.extra_keys.len(),
            extra_keys@.len() == i,
            forall|j: int| 0 <= j < i ==> #[trigger] entry_views(extra_keys@)[j] == entry_views(
                m.extra_keys@,
            )[j],
        decreases m.extra_keys.len() - i,
    {
        let ghost prev = extra_keys@;
        extra_keys.push((m.extra_keys[i].0.clone(), m.extra_keys[i].1.clone()));
        proof {
            assert forall|j: int| 0 <= j < i + 1 implies #[trigger] entry_views(extra_keys@)[j]
                == entry_views(m.extra_keys@)[j] by {
                assert(entry_views(extra_keys@)[j] == (extra_keys@[j].0@, extra_keys@[j].1@));
                assert(entry_views(m.extra_keys@)[j] == (m.extra_keys@[j].0@, m.extra_keys@[j].1@));
                if j < i {
                    assert(extra_keys@[j] == prev[j]);
                    assert(entry_views(prev)[j] == (prev[j].0@, prev[j].1@));
                }
            }
        }
        i += 1;
    }
    let r = Manifest {
        address: clone_opt_string(&m.address),
        ssh_user: clone_opt_string(&m.ssh_user),
        ssh_port: m.ssh_port,
        extra_keys,
    };
    proof {
        assert(entry_views(r.extra_keys@) =~= entry_views(m.extra_keys@));
        assert(r@ =~= m@);
    }
    r
}

/// Do the first `n` segments of `a` spell the path `b`?
#[verifier::loop_isolation(false)]
fn prefix_eq(a: &Vec<String>, n: usize, b: &Vec<String>) -> (r: bool)
    requires
        n <= a.len(),
    ensures
        r == (path_view(a@).take(n as int) == path_view(b@)),
{
    if b.len() != n {
        proof {
            assert(path_view(a@).take(n as int).len() == n);
            assert(path_view(b@).len() == b@.len());
        }
        return false;
    }
    let mut i: usize = 0;
    while i < n
        invariant
            i <= n,
            forall|j: int| 0 <= j < i ==> (#[trigger] path_view(a@)[j]) == path_view(b@)[j],
        decreases n - i,
    {
        if !a[i].eq(&b[i]) {
            proof {
                assert(path_view(a@).take(n as int)[i as int] != path_view(b@)[i as int]);
            }
            return false;
        }
        i += 1;
    }
    proof {
        assert(path_view(a@).take(n as int) =~= path_view(b@));
    }
    true
}

/// Find the group-default fragment of the directory spelled by the first `n`
/// segments of `host_path`, if that directory has one.
#[verifier::loop_isolation(false)]
fn lookup_group<'a>(
    groups: &'a Vec<(Vec<String>, Manifest)>,
    host_path: &Vec<String>,
    n: usize,
) -> (r: Option<&'a Manifest>)
    requires
        n <= host_path.len(),
        unique_keys(group_views(groups@)),
    ensures
        ({
            let gm = assoc_map(group_views(groups@));
            let dir = path_view(host_path@).take(n as int);
            match r {
                Some(m) => gm.contains_key(dir) && m@ == gm[dir] && exists|i: int|
                    0 <= i < groups@.len() && *m == (#[trigger] groups@[i]).1,
                None => !gm.contains_key(dir),
            }
        }),
{
    let ghost gv = group_views(groups@);
    let ghost dir = path_view(host_path@).take(n as int);
    proof {
        lemma_assoc_map_has_key(gv, dir);
    }
    let mut i: usize = 0;
    while i < groups.len()
        invariant
            i <= groups.len(),
            forall|j: int| 0 <= j < i ==> (#[trigger] gv[j]).0 != dir,
        decreases groups.len() - i,
    {
        if prefix_eq(host_path, n, &groups[i].0) {
            proof {
                assert((gv[i as int]).0 == dir);
                lemma_assoc_map_at(gv, i as int);
            }
            return Some(&groups[i].1);
        }
        proof {
            assert((gv[i as int]).0 == path_view(groups@[i as int].0@));
        }
        i += 1;
    }
    None
}

/// Resolve one host: fold its fragment with every applicable group default,
/// nearest first, and validate the merged result.
#[verifier::loop_isolation(false)]
pub fn resolve_host(
    host_path: &Vec<String>,
    host_manifest: &Manifest,
    groups: &Vec<(Vec<String>, Manifest)>,
) -> (r: Result<HostSpec, InventoryError>)
    requires
        host_manifest.wf(),
        unique_keys(group_views(groups@)),
        forall|i: int| 0 <= i < groups@.len() ==> (#[trigger] groups@[i]).1.wf(),
    ensures
        ({
            let res = spec_resolve_host(
                host_manifest@,
                path_view(host_path@),
                assoc_map(group_views(groups@)),
            );
            match r {
                Ok(h) => res matches Ok(hv) && h@ == hv && h@.valid(),
                Err(e) => res matches Err(ev) && e@ == ev,
            }
        }),
{
    let ghost pv = path_view(host_path@);
    let ghost gm = assoc_map(group_views(groups@));
    let ghost goal = fold_chain(host_manifest@, ancestor_chain(pv, pv.len(), gm));

    let mut acc = clone_manifest(host_manifest);
    let mut n: usize = host_path.len();
    while n > 0
        invariant
            n <= host_path.len(),
            acc.wf(),
            goal == fold_chain(acc@, ancestor_chain(pv, n as nat, gm)),
        decreases n,
    {
        n -= 1;
        let ghost dir = pv.take(n as int);
        let ghost chain_rest = ancestor_chain(pv, n as nat, gm);
        match lookup_group(groups, host_path, n) {
            Some(g) => {
                proof {
                    assert(ancestor_chain(pv, (n + 1) as nat, gm) == seq![gm[dir]] + chain_rest);
                    assert((seq![gm[dir]] + chain_rest)[0] == gm[dir]);
                    assert((seq![gm[dir]] + chain_rest).skip(1) =~= chain_rest);
                    let wit = choose|i: int|
                        0 <= i < groups@.len() && *g == (#[trigger] groups@[i]).1;
                    assert(groups@[wit].1.wf());
                }
                acc = acc.or(g);
            },
            None => {
                proof {
                    assert(ancestor_chain(pv, (n + 1) as nat, gm) == chain_rest);
                }
            },
        }
    }
    proof {
        assert(ancestor_chain(pv, 0, gm) =~= Seq::<ManifestView>::empty());
        assert(goal == acc@);
    }
    acc.validate(clone_path(host_path))
}

/// An ordered collection of resolved hosts, one per host fragment.
#[derive(Debug)]
pub struct Inventory {
    pub hosts: Vec<HostSpec>,
}

impl View for Inventory {
    type V = Seq<HostSpecView>;

    open spec fn view(&self) -> Seq<HostSpecView> {
        self.hosts@.map_values(|h: HostSpec| h@)
    }
}

/// Resolve a whole inventory from its fragments: `groups` are the
/// group-default fragments keyed by directory path, `hosts` the host
/// fragments keyed by host path. Fails on the first host, in the given
/// order, whose merged configuration lacks a required field; no partial
/// inventory is ever produced.
#[verifier::loop_isolation(false)]
pub fn resolve_inventory(
    groups: &Vec<(Vec<String>, Manifest)>,
    hosts: &Vec<(Vec<String>, Manifest)>,
) -> (r: Result<Inventory, InventoryError>)
    requires
        unique_keys(group_views(groups@)),
        forall|i: int| 0 <= i < groups@.len() ==> (#[trigger] groups@[i]).1.wf(),
        forall|i: int| 0 <= i < hosts@.len() ==> (#[trigger] hosts@[i]).1.wf(),
    ensures
        ({
            let gm = assoc_map(group_views(groups@));
            match r {
                Ok(inv) => inv@.len() == hosts@.len() && forall|i: int|
                    0 <= i < hosts@.len() ==> (spec_resolve_host(
                        (#[trigger] hosts@[i]).1@,
                        path_view(hosts@[i].0@),
                        gm,
                    ) matches Ok(hv) && inv@[i] == hv && hv.valid()),
                Err(e) => exists|i: int|
                    {
                        &&& 0 <= i < hosts@.len()
                        &&& spec_resolve_host(
                            (#[trigger] hosts@[i]).1@,
                            path_view(hosts@[i].0@),
                            gm,
                        ) matches Err(ev) && e@ == ev
                        &&& forall|j: int|
                            0 <= j < i ==> spec_resolve_host(
                                (#[trigger] hosts@[j]).1@,
                                path_view(hosts@[j].0@),
                                gm,
                            ) is Ok
                    },
            }
        }),
{
    let ghost gm = assoc_map(group_views(groups@));
    let mut out: Vec<HostSpec> = Vec::new();
    let mut i: usize = 0;
    while i < hosts.len()
        invariant
            i <= hosts.len(),
            out@.len() == i,
            forall|j: int|
                0 <= j < i ==> (spec_resolve_host(
                    (#[trigger] hosts@[j]).1@,
                    path_view(hosts@[j].0@),
                    gm,
                ) matches Ok(hv) && out@[j]@ == hv && hv.valid()),
        decreases hosts.len() - i,
    {
        match resolve_host(&hosts[i].0, &hosts[i].1, groups) {
            Ok(h) => out.push(h),
            Err(e) => {
                return Err(e);
            },
        }
        i += 1;
    }
    let inv = Inventory { hosts: out };
    proof {
        assert(forall|j: int| 0 <= j < inv@.len() ==> inv@[j] == (#[trigger] inv.hosts@[j])@);
    }
    Ok(inv)
}

} // verus!

