//! The connection dispatcher: resolves a profile by name and constructs
//! the exact argument list of the external remote-shell invocation. The
//! launch itself — spawning the process with inherited standard streams —
//! is the shell's job, outside the library; everything the launch needs
//! is pinned down here.

use crate::codec::dec_bytes;
use crate::codec::u32_dec;
use crate::profile::{
    clone_bytes,
    contains_name,
    find_profile,
    AuthMethod,
    AuthView,
    Error,
    ProfileView,
    Registry,
    ServerProfile,
};
use vstd::prelude::*;

verus! {

/// An external process invocation: the program to look up on the ambient
/// execution path, and its argument tokens in order.
pub struct Invocation {
    pub program: Vec<u8>,
    pub args: Vec<Vec<u8>>,
}

/// Mathematical mirror of [`Invocation`].
pub struct InvocationView {
    pub program: Seq<u8>,
    pub args: Seq<Seq<u8>>,
}

impl View for Invocation {
    type V = InvocationView;

    open spec fn view(&self) -> InvocationView {
        InvocationView {
            program: self.program@,
            args: Seq::new(self.args@.len(), |i: int| self.args@[i]@),
        }
    }
}

/// The name of the remote-shell binary.
pub open spec fn ssh_program() -> Seq<u8> {
    ascii("ssh"@)
}

/// The name of the password-injection wrapper binary.
pub open spec fn sshpass_program() -> Seq<u8> {
    ascii("sshpass"@)
}

/// The identity-file flag of the remote shell.
pub open spec fn flag_identity() -> Seq<u8> {
    ascii("-i"@)
}

/// The port flag of the remote shell, and the password flag of the
/// password-injection wrapper.
pub open spec fn flag_p() -> Seq<u8> {
    ascii("-p"@)
}

/// The bytes of an ASCII character sequence.
pub open spec fn ascii(cs: Seq<char>) -> Seq<u8> {
    crate::codec::ascii_seq(cs)
}

/// The `username@address` target token of a profile.
pub open spec fn target_of(username: Seq<u8>, address: Seq<u8>) -> Seq<u8> {
    username + seq![('@' as u8)] + address
}

/// The exact invocation a profile resolves to.
///
/// A key-authenticated profile runs the remote shell directly, pointing it
/// at the key file; a password-authenticated profile runs the
/// password-injection wrapper, which supplies the password to the remote
/// shell it starts in turn.
pub open spec fn invocation_of(p: ProfileView) -> InvocationView {
    match p.auth {
        AuthView::KeyAuth { username, key_path } => InvocationView {
            program: ssh_program(),
            args: seq![
                flag_identity(),
                key_path,
                flag_p(),
                dec_bytes(p.port as nat),
                target_of(username, p.address),
            ],
        },
        AuthView::PasswordAuth { username, password } => InvocationView {
            program: sshpass_program(),
            args: seq![
                flag_p(),
                password,
                ascii("ssh"@),
                flag_p(),
                dec_bytes(p.port as nat),
                target_of(username, p.address),
            ],
        },
    }
}

/// A fresh vector holding the bytes of an ASCII literal.
fn lit_vec(s: &str) -> (r: Vec<u8>)
    requires
        vstd::string::is_ascii(s),
    ensures
        r@ == ascii(s@),
{
    let bs = s.as_bytes();
    proof {
        vstd::string::is_ascii_spec_bytes(s);
        assert(bs@ =~= ascii(s@));
    }
    let n = bs.len();
    let mut out: Vec<u8> = Vec::new();
    let mut j: usize = 0;
    while j < n
        invariant
            n == bs@.len(),
            j <= n,
            out@ =~= bs@.take(j as int),
        decreases n - j,
    {
        let b = bs[j];
        out.push(b);
        assert(out@ =~= bs@.take(j as int + 1));
        j += 1;
    }
    assert(bs@.take(n as int) =~= bs@);
    out
}

/// The `username@address` target token, executable form.
fn target_vec(username: &Vec<u8>, address: &Vec<u8>) -> (r: Vec<u8>)
    ensures
        r@ == target_of(username@, address@),
{
    let mut out = clone_bytes(username);
    out.push('@' as u8);
    let n = address.len();
    let mut j: usize = 0;
    while j < n
        invariant
            n == address@.len(),
            j <= n,
            out@ =~= username@ + seq![('@' as u8)] + address@.take(j as int),
        decreases n - j,
    {
        out.push(address[j]);
        assert(out@ =~= username@ + seq![('@' as u8)] + address@.take(j as int + 1));
        j += 1;
    }
    assert(address@.take(n as int) =~= address@);
    out
}

/// Builds the external invocation of one profile.
pub fn build_invocation(p: &ServerProfile) -> (r: Invocation)
    ensures
        r@ == invocation_of(p@),
{
    proof {
        reveal_strlit("ssh");
        reveal_strlit("sshpass");
        reveal_strlit("-i");
        reveal_strlit("-p");
    }
    match &p.auth {
        AuthMethod::KeyAuth { username, key_path } => {
            let mut args: Vec<Vec<u8>> = Vec::new();
            args.push(lit_vec("-i"));
            args.push(clone_bytes(key_path));
            args.push(lit_vec("-p"));
            args.push(u32_dec(p.port));
            args.push(target_vec(username, &p.address));
            let r = Invocation { program: lit_vec("ssh"), args };
            assert(r@.args =~= invocation_of(p@).args);
            r
        },
        AuthMethod::PasswordAuth { username, password } => {
            let mut args: Vec<Vec<u8>> = Vec::new();
            args.push(lit_vec("-p"));
            args.push(clone_bytes(password));
            args.push(lit_vec("ssh"));
            args.push(lit_vec("-p"));
            args.push(u32_dec(p.port));
            args.push(target_vec(username, &p.address));
            let r = Invocation { program: lit_vec("sshpass"), args };
            assert(r@.args =~= invocation_of(p@).args);
            r
        },
    }
}

/// Resolves `name` in the registry and constructs the invocation of the
/// matching profile. An unknown name is a hard error and constructs
/// nothing — no process may be launched for it.
pub fn connect(registry: &Registry, name: &Vec<u8>) -> (r: Result<Invocation, Error>)
    ensures
        match r {
            Ok(inv) => match find_profile(registry@, name@) {
                Some(p) => inv@ == invocation_of(p),
                None => false,
            },
            Err(e) => e == Error::NotFoundError && !contains_name(registry@, name@),
        },
{
    match registry.find(name) {
        Some(p) => Ok(build_invocation(p)),
        None => Err(Error::NotFoundError),
    }
}

} // verus!
