//! The data model: server profiles with a polymorphic authentication
//! method, the registry that holds them, and the registry operations
//! (add, remove, list) together with their uniqueness laws.
//!
//! Strings (names, addresses, user names, key paths, passwords) are held
//! as byte vectors: that is what the persisted document and the external
//! invocation carry, and it keeps the model free of any encoding concern.

use vstd::prelude::*;
use vstd::string::StrSliceExecFns;
use vstd::string::StringSliceAdditionalSpecFns;

verus! {

/// Reads a key-path argument: every string is a valid path, kept as its
/// bytes.
pub fn parse_ssh_path(s: &str) -> (r: Vec<u8>)
    ensures
        r@ == s.spec_bytes(),
{
    s.as_bytes_vec()
}

/// The error taxonomy of the whole system. The registry operations and the
/// document codec produce `ParseError`, `DuplicateNameError` and
/// `NotFoundError`; the remaining variants are produced by the unverified
/// shell around the library (filesystem access, path conversion, process
/// launch) so that every failure travels in one type.
#[derive(Debug, PartialEq, Eq, Clone, Copy)]
pub enum Error {
    /// The persisted document exists but is malformed.
    ParseError,
    /// Filesystem access failed.
    IoError,
    /// `add` was given a profile whose name is already taken.
    DuplicateNameError,
    /// `connect` was given a name that no profile carries.
    NotFoundError,
    /// A key path is not representable in the form the external tool needs.
    InvalidPathError,
    /// The external binary could not be started.
    LaunchError,
}

impl Error {
    /// A human-readable description of the failure.
    pub fn message(&self) -> (r: &'static str)
        ensures
            match self {
                Error::ParseError => r@ == "the stored server document is malformed"@,
                Error::IoError => r@ == "the stored server document could not be accessed"@,
                Error::DuplicateNameError => r@ == "a server with this name already exists"@,
                Error::NotFoundError => r@ == "no server with this name exists"@,
                Error::InvalidPathError => r@
                    == "the key path cannot be passed to the remote shell"@,
                Error::LaunchError => r@ == "the remote shell could not be started"@,
            },
            r@.len() > 0,
    {
        let r = match self {
            Error::ParseError => "the stored server document is malformed",
            Error::IoError => "the stored server document could not be accessed",
            Error::DuplicateNameError => "a server with this name already exists",
            Error::NotFoundError => "no server with this name exists",
            Error::InvalidPathError => "the key path cannot be passed to the remote shell",
            Error::LaunchError => "the remote shell could not be started",
        };
        proof {
            reveal_strlit("the stored server document is malformed");
            reveal_strlit("the stored server document could not be accessed");
            reveal_strlit("a server with this name already exists");
            reveal_strlit("no server with this name exists");
            reveal_strlit("the key path cannot be passed to the remote shell");
            reveal_strlit("the remote shell could not be started");
        }
        r
    }
}

/// Mathematical mirror of [`AuthMethod`].
pub enum AuthView {
    KeyAuth { username: Seq<u8>, key_path: Seq<u8> },
    PasswordAuth { username: Seq<u8>, password: Seq<u8> },
}

/// Mathematical mirror of [`ServerProfile`].
pub struct ProfileView {
    pub name: Seq<u8>,
    pub address: Seq<u8>,
    pub port: u32,
    pub auth: AuthView,
}

/// How a profile authenticates: with a key file or with a password.
/// The password is stored in the clear in the persisted document; that is
/// a deliberate trade-off of the design, not an oversight.
pub enum AuthMethod {
    KeyAuth { username: Vec<u8>, key_path: Vec<u8> },
    PasswordAuth { username: Vec<u8>, password: Vec<u8> },
}

/// One named server bookmark.
pub struct ServerProfile {
    pub name: Vec<u8>,
    pub address: Vec<u8>,
    pub port: u32,
    pub auth: AuthMethod,
}

/// The ordered collection of all profiles: the unit of persistence.
/// Insertion order is preserved; no two profiles share a name after any
/// successful mutating operation.
pub struct Registry {
    pub profiles: Vec<ServerProfile>,
}

impl View for AuthMethod {
    type V = AuthView;

    open spec fn view(&self) -> AuthView {
        match self {
            AuthMethod::KeyAuth { username, key_path } => AuthView::KeyAuth {
                username: username@,
                key_path: key_path@,
            },
            AuthMethod::PasswordAuth { username, password } => AuthView::PasswordAuth {
                username: username@,
                password: password@,
            },
        }
    }
}

impl View for ServerProfile {
    type V = ProfileView;

    open spec fn view(&self) -> ProfileView {
        ProfileView { name: self.name@, address: self.address@, port: self.port, auth: self.auth@ }
    }
}

impl View for Registry {
    type V = Seq<ProfileView>;

    open spec fn view(&self) -> Seq<ProfileView> {
        Seq::new(self.profiles@.len(), |i: int| self.profiles@[i]@)
    }
}

/// The first profile carrying `name`, in stored order.
pub open spec fn find_profile(s: Seq<ProfileView>, name: Seq<u8>) -> Option<ProfileView>
    decreases s.len(),
{
    if s.len() == 0 {
        None
    } else if s[0].name == name {
        Some(s[0])
    } else {
        find_profile(s.drop_first(), name)
    }
}

/// Whether some profile carries `name`.
pub open spec fn contains_name(s: Seq<ProfileView>, name: Seq<u8>) -> bool {
    find_profile(s, name) is Some
}

/// No two profiles share a name.
pub open spec fn unique_names(s: Seq<ProfileView>) -> bool {
    forall|i: int, j: int| 0 <= i < j < s.len() ==> s[i].name != s[j].name
}

/// The registry with every profile named `name` taken out, order kept.
pub open spec fn removed(s: Seq<ProfileView>, name: Seq<u8>) -> Seq<ProfileView>
    decreases s.len(),
{
    if s.len() == 0 {
        Seq::empty()
    } else if s[0].name == name {
        removed(s.drop_first(), name)
    } else {
        seq![s[0]] + removed(s.drop_first(), name)
    }
}

/// `find_profile` misses exactly when no profile carries the name.
pub proof fn lemma_find_none_iff_absent(s: Seq<ProfileView>, name: Seq<u8>)
    ensures
        find_profile(s, name) is None <==> (forall|i: int|
            0 <= i < s.len() ==> s[i].name != name),
    decreases s.len(),
{
    if s.len() > 0 {
        lemma_find_none_iff_absent(s.drop_first(), name);
        if find_profile(s, name) is None {
            assert forall|i: int| 0 <= i < s.len() implies s[i].name != name by {
                if i > 0 {
                    assert(s.drop_first()[i - 1] == s[i]);
                }
            }
        } else if s[0].name != name {
            let i0 = choose|i: int|
                0 <= i < s.drop_first().len() && s.drop_first()[i].name == name;
            assert(s[i0 + 1].name == name);
        }
    }
}

/// Byte-vector equality, decided byte by byte.
pub fn bytes_eq(a: &Vec<u8>, b: &Vec<u8>) -> (r: bool)
    ensures
        r == (a@ == b@),
{
    if a.len() != b.len() {
        assert(a@ != b@);
        return false;
    }
    let n = a.len();
    let mut i: usize = 0;
    while i < n
        invariant
            n == a@.len() == b@.len(),
            i <= n,
            forall|k: int| 0 <= k < i ==> a@[k] == b@[k],
        decreases n - i,
    {
        if a[i] != b[i] {
            return false;
        }
        i += 1;
    }
    assert(a@ =~= b@);
    true
}

impl Registry {
    /// The empty registry.
    pub fn new() -> (r: Registry)
        ensures
            r@ =~= Seq::<ProfileView>::empty(),
    {
        Registry { profiles: Vec::new() }
    }

    /// The number of stored profiles.
    pub fn len(&self) -> (r: usize)
        ensures
            r == self@.len(),
    {
        self.profiles.len()
    }

    /// Looks a profile up by name: the first (and, in a well-formed
    /// registry, only) profile carrying it.
    pub fn find(&self, name: &Vec<u8>) -> (r: Option<&ServerProfile>)
        ensures
            match r {
                Some(p) => find_profile(self@, name@) == Some(p@),
                None => find_profile(self@, name@) is None,
            },
    {
        let n = self.profiles.len();
        let mut i: usize = 0;
        assert(self@.skip(0) =~= self@);
        while i < n
            invariant
                n == self@.len(),
                i <= n,
                find_profile(self@, name@) == find_profile(self@.skip(i as int), name@),
            decreases n - i,
        {
            assert(self@.skip(i as int)[0] == self@[i as int]);
            if bytes_eq(&self.profiles[i].name, name) {
                assert(find_profile(self@.skip(i as int), name@) == Some(self@[i as int]));
                return Some(&self.profiles[i]);
            }
            assert(self@.skip(i as int).drop_first() =~= self@.skip(i as int + 1));
            i += 1;
        }
        assert(self@.skip(n as int) =~= Seq::<ProfileView>::empty());
        None
    }

    /// Appends `profile` unless its name is already taken; rejected
    /// additions leave the registry untouched and report
    /// [`Error::DuplicateNameError`].
    pub fn add(&mut self, profile: ServerProfile) -> (r: Result<(), Error>)
        ensures
            match r {
                Ok(()) => !contains_name(old(self)@, profile@.name) && final(self)@
                    =~= old(self)@.push(profile@),
                Err(e) => e == Error::DuplicateNameError && contains_name(
                    old(self)@,
                    profile@.name,
                ) && final(self)@ =~= old(self)@,
            },
    {
        if self.find(&profile.name).is_some() {
            return Err(Error::DuplicateNameError);
        }
        self.profiles.push(profile);
        Ok(())
    }

    /// Drops every profile carrying `name`; removing an absent name is a
    /// no-op, never an error.
    pub fn remove(&mut self, name: &Vec<u8>)
        ensures
            final(self)@ =~= removed(old(self)@, name@),
    {
        let ghost orig = self@;
        let n = self.profiles.len();
        let mut kept: Vec<ServerProfile> = Vec::new();
        let mut i: usize = 0;
        assert(orig.skip(0) =~= orig);
        assert(Seq::new(0, |k: int| kept@[k]@) =~= Seq::<ProfileView>::empty());
        while i < n
            invariant
                n == orig.len(),
                n == self.profiles@.len(),
                self@ == orig,
                i <= n,
                kept@.len() <= i,
                Seq::new(kept@.len(), |k: int| kept@[k]@) + removed(orig.skip(i as int), name@)
                    =~= removed(orig, name@),
            decreases n - i,
        {
            assert(orig.skip(i as int)[0] == orig[i as int]);
            assert(orig.skip(i as int).drop_first() =~= orig.skip(i as int + 1));
            if !bytes_eq(&self.profiles[i].name, name) {
                let ghost kept_pre = kept@;
                let p = self.profiles[i].clone_profile();
                kept.push(p);
                assert(Seq::new(kept@.len(), |k: int| kept@[k]@) =~= Seq::new(
                    kept_pre.len(),
                    |k: int| kept_pre[k]@,
                ).push(orig[i as int]));
            }
            i += 1;
        }
        assert(orig.skip(n as int) =~= Seq::<ProfileView>::empty());
        self.profiles = kept;
        assert(final(self)@ =~= Seq::new(kept@.len(), |k: int| kept@[k]@));
    }

    /// The (name, address) pairs of all profiles, in stored order.
    pub fn list(&self) -> (r: Vec<(Vec<u8>, Vec<u8>)>)
        ensures
            r@.len() == self@.len(),
            forall|i: int|
                0 <= i < r@.len() ==> #[trigger] r@[i].0@ == self@[i].name && r@[i].1@
                    == self@[i].address,
    {
        let n = self.profiles.len();
        let mut out: Vec<(Vec<u8>, Vec<u8>)> = Vec::new();
        let mut i: usize = 0;
        while i < n
            invariant
                n == self@.len(),
                n == self.profiles@.len(),
                i <= n,
                out@.len() == i,
                forall|k: int|
                    0 <= k < i ==> #[trigger] out@[k].0@ == self@[k].name && out@[k].1@
                        == self@[k].address,
            decreases n - i,
        {
            let name = clone_bytes(&self.profiles[i].name);
            let address = clone_bytes(&self.profiles[i].address);
            out.push((name, address));
            i += 1;
        }
        out
    }
}

/// A copy of a byte vector with the same contents.
pub fn clone_bytes(v: &Vec<u8>) -> (r: Vec<u8>)
    ensures
        r@ == v@,
{
    let n = v.len();
    let mut out: Vec<u8> = Vec::new();
    let mut i: usize = 0;
    while i < n
        invariant
            n == v@.len(),
            i <= n,
            out@ =~= v@.take(i as int),
        decreases n - i,
    {
        out.push(v[i]);
        assert(out@ =~= v@.take(i as int + 1));
        i += 1;
    }
    assert(v@.take(n as int) =~= v@);
    out
}

impl AuthMethod {
    /// A copy with the same view.
    pub fn clone_auth(&self) -> (r: AuthMethod)
        ensures
            r@ == self@,
    {
        match self {
            AuthMethod::KeyAuth { username, key_path } => AuthMethod::KeyAuth {
                username: clone_bytes(username),
                key_path: clone_bytes(key_path),
            },
            AuthMethod::PasswordAuth { username, password } => AuthMethod::PasswordAuth {
                username: clone_bytes(username),
                password: clone_bytes(password),
            },
        }
    }

    /// The short label of the authentication variant, for display.
    pub fn label(&self) -> (r: &'static str)
        ensures
            self is KeyAuth ==> r@ == "ssh"@,
            self is PasswordAuth ==> r@ == "pass"@,
    {
        match self {
            AuthMethod::KeyAuth { .. } => "ssh",
            AuthMethod::PasswordAuth { .. } => "pass",
        }
    }
}

impl ServerProfile {
    /// A copy with the same view.
    pub fn clone_profile(&self) -> (r: ServerProfile)
        ensures
            r@ == self@,
    {
        ServerProfile {
            name: clone_bytes(&self.name),
            address: clone_bytes(&self.address),
            port: self.port,
            auth: self.auth.clone_auth(),
        }
    }
}

/// Uniqueness is preserved by a successful `add`: appending a profile whose
/// name is not yet taken keeps all names distinct. Together with the `add`
/// contract (a taken name is rejected and leaves the registry unchanged)
/// this gives the invariant for every sequence of `add` calls that starts
/// from a registry with distinct names.
pub proof fn lemma_add_preserves_unique(s: Seq<ProfileView>, p: ProfileView)
    requires
        unique_names(s),
        !contains_name(s, p.name),
    ensures
        unique_names(s.push(p)),
{
    lemma_find_none_iff_absent(s, p.name);
    assert forall|i: int, j: int| 0 <= i < j < s.push(p).len() implies s.push(p)[i].name
        != s.push(p)[j].name by {
        if j < s.len() {
            assert(s.push(p)[i] == s[i] && s.push(p)[j] == s[j]);
        } else {
            assert(s.push(p)[i] == s[i] && s.push(p)[j] == p);
        }
    }
}

/// After a removal, no profile carries the removed name.
pub proof fn lemma_removed_absent(s: Seq<ProfileView>, name: Seq<u8>)
    ensures
        !contains_name(removed(s, name), name),
    decreases s.len(),
{
    if s.len() > 0 {
        lemma_removed_absent(s.drop_first(), name);
        if s[0].name != name {
            let rest = removed(s.drop_first(), name);
            assert((seq![s[0]] + rest).drop_first() =~= rest);
        }
    }
}

/// Removing a name nobody carries changes nothing.
pub proof fn lemma_removed_identity(s: Seq<ProfileView>, name: Seq<u8>)
    requires
        !contains_name(s, name),
    ensures
        removed(s, name) =~= s,
    decreases s.len(),
{
    if s.len() > 0 {
        lemma_removed_identity(s.drop_first(), name);
        assert(removed(s, name) =~= seq![s[0]] + s.drop_first());
    }
}

/// Removal is idempotent: a second removal of the same name is a no-op.
pub proof fn lemma_remove_idempotent(s: Seq<ProfileView>, name: Seq<u8>)
    ensures
        removed(removed(s, name), name) =~= removed(s, name),
{
    lemma_removed_absent(s, name);
    lemma_removed_identity(removed(s, name), name);
}

/// Removal keeps distinct names distinct: the uniqueness invariant
/// survives every mutating operation.
pub proof fn lemma_removed_preserves_unique(s: Seq<ProfileView>, name: Seq<u8>)
    requires
        unique_names(s),
    ensures
        unique_names(removed(s, name)),
    decreases s.len(),
{
    if s.len() > 0 {
        assert(forall|i: int|
            0 <= i < s.drop_first().len() ==> #[trigger] s.drop_first()[i] == s[i + 1]);
        assert(unique_names(s.drop_first()));
        lemma_removed_preserves_unique(s.drop_first(), name);
        if s[0].name != name {
            let rest = removed(s.drop_first(), name);
            lemma_removed_subset(s.drop_first(), name);
            assert forall|i: int, j: int|
                0 <= i < j < (seq![s[0]] + rest).len() implies (seq![s[0]] + rest)[i].name != (
            seq![s[0]] + rest)[j].name by {
                if i == 0 {
                    let k = choose|k: int|
                        0 <= k < s.drop_first().len() && s.drop_first()[k] == rest[j - 1];
                    assert(s[k + 1] == rest[j - 1]);
                } else {
                    assert((seq![s[0]] + rest)[i] == rest[i - 1]);
                    assert((seq![s[0]] + rest)[j] == rest[j - 1]);
                }
            }
        }
    }
}

/// Every profile that survives a removal stood in the registry before it.
pub proof fn lemma_removed_subset(s: Seq<ProfileView>, name: Seq<u8>)
    ensures
        forall|j: int|
            0 <= j < removed(s, name).len() ==> exists|k: int|
                0 <= k < s.len() && s[k] == #[trigger] removed(s, name)[j],
    decreases s.len(),
{
    if s.len() > 0 {
        lemma_removed_subset(s.drop_first(), name);
        let rest = removed(s.drop_first(), name);
        assert forall|j: int| 0 <= j < removed(s, name).len() implies exists|k: int|
            0 <= k < s.len() && s[k] == #[trigger] removed(s, name)[j] by {
            if s[0].name == name {
                let k0 = choose|k: int|
                    0 <= k < s.drop_first().len() && s.drop_first()[k] == rest[j];
                assert(s[k0 + 1] == removed(s, name)[j]);
            } else {
                if j == 0 {
                    assert(s[0] == removed(s, name)[0]);
                } else {
                    assert(removed(s, name)[j] == rest[j - 1]);
                    let k0 = choose|k: int|
                        0 <= k < s.drop_first().len() && s.drop_first()[k] == rest[j - 1];
                    assert(s[k0 + 1] == removed(s, name)[j]);
                }
            }
        }
    }
}

} // verus!
