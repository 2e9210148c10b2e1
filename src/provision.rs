//! The manifest model and the decisions of batch provisioning: which key a
//! secret uses, where its file goes, who owns it, and the order of the
//! operations that materialise it without ever exposing the plaintext.
use vstd::prelude::*;

verus! {

/// The permission bits of a secret file when the manifest names none: owner read only.
pub const DEFAULT_MODE: u32 = 0o400;

/// The permission bits a file is created with: owner write only.
pub const CREATE_MODE: u32 = 0o200;

/// The permission bits of a file while its ownership changes: none.
pub const LOCKED_MODE: u32 = 0;

/// The permission bits of a secret file when the manifest names none.
pub fn default_mode() -> (r: u32)
    ensures
        r == DEFAULT_MODE,
{
    DEFAULT_MODE
}

// ----- the manifest -----

/// A user or a group, by number or by name.
pub enum Principal {
    Id(u32),
    Name(String),
}

/// How one secret is decrypted and materialised.
pub struct FileDesc {
    /// The name of the key that encrypts it; the manifest's first key when absent.
    pub key: Option<String>,
    /// Where its armored envelope is read from.
    pub encrypted: String,
    /// The permission bits of the file.
    pub mode: u32,
    /// Its owner.
    pub user: Principal,
    /// Its group.
    pub group: Principal,
}

/// A batch of secrets: where they go, the keys, in order, and the secrets by name.
pub struct Config {
    pub target_dir: String,
    pub keys: Vec<(String, String)>,
    pub files: Vec<(String, FileDesc)>,
}

/// Why no key could be chosen for a secret.
#[derive(Debug, Clone, Copy, PartialEq, Eq, Structural)]
pub enum KeyResolutionError {
    /// The secret names a key that the manifest does not configure.
    NotConfigured,
    /// The secret names no key, and the manifest configures none.
    NoKeys,
}

impl Config {
    /// `r` is the key that encrypts `desc`: the first key of the name it
    /// names, or the first key when it names none.
    pub open spec fn key_chosen(&self, desc: &FileDesc, r: Result<usize, KeyResolutionError>) -> bool {
        &&& desc.key is None ==> (if self.keys@.len() > 0 {
            r == Ok::<usize, KeyResolutionError>(0)
        } else {
            r == Err::<usize, KeyResolutionError>(KeyResolutionError::NoKeys)
        })
        &&& desc.key is Some ==> match r {
            Ok(i) => i < self.keys@.len() && self.keys@[i as int].0@ == desc.key->Some_0@
                && forall|j: int| 0 <= j < i ==> #[trigger] self.keys@[j].0@ != desc.key->Some_0@,
            Err(e) => e == KeyResolutionError::NotConfigured && forall|j: int|
                0 <= j < self.keys@.len() ==> #[trigger] self.keys@[j].0@ != desc.key->Some_0@,
        }
    }

    /// Some key encrypts `desc`.
    pub open spec fn resolvable(&self, desc: &FileDesc) -> bool {
        exists|k: usize| #[trigger] self.key_chosen(desc, Ok::<usize, KeyResolutionError>(k))
    }

    /// The position of the key that encrypts `desc`.
    pub fn key_index(&self, desc: &FileDesc) -> (r: Result<usize, KeyResolutionError>)
        ensures
            self.key_chosen(desc, r),
    {
        match &desc.key {
            None => {
                if self.keys.len() > 0 {
                    Ok(0)
                } else {
                    Err(KeyResolutionError::NoKeys)
                }
            },
            Some(name) => {
                let mut i: usize = 0;
                while i < self.keys.len()
                    invariant
                        i <= self.keys@.len(),
                        desc.key == Some(*name),
                        forall|j: int| 0 <= j < i ==> #[trigger] self.keys@[j].0@ != name@,
                    decreases self.keys@.len() - i,
                {
                    if self.keys[i].0 == *name {
                        return Ok(i);
                    }
                    i += 1;
                }
                Err(KeyResolutionError::NotConfigured)
            },
        }
    }
}

/// A secret that names no key is encrypted with the manifest's first key, and
/// without keys it cannot be resolved.
pub proof fn lemma_default_key(c: &Config, desc: &FileDesc, r: Result<usize, KeyResolutionError>)
    requires
        desc.key is None,
        c.key_chosen(desc, r),
    ensures
        c.keys@.len() > 0 ==> r == Ok::<usize, KeyResolutionError>(0),
        c.keys@.len() == 0 ==> r == Err::<usize, KeyResolutionError>(KeyResolutionError::NoKeys),
{
}

impl Config {
    /// The key of every secret, in order; or, at the first secret whose key
    /// cannot be resolved, its position and why.
    pub fn key_indices(&self) -> (r: Result<Vec<usize>, (usize, KeyResolutionError)>)
        ensures
            r is Ok ==> r->Ok_0@.len() == self.files@.len() && forall|i: int|
                0 <= i < self.files@.len() ==> self.key_chosen(
                    &#[trigger] self.files@[i].1,
                    Ok::<usize, KeyResolutionError>(r->Ok_0@[i]),
                ),
            r is Err ==> {
                let (i, e) = r->Err_0;
                &&& i < self.files@.len()
                &&& self.key_chosen(&self.files@[i as int].1, Err::<usize, KeyResolutionError>(e))
                &&& forall|j: int| 0 <= j < i ==> self.resolvable(&#[trigger] self.files@[j].1)
            },
    {
        let mut out: Vec<usize> = Vec::new();
        let mut i: usize = 0;
        while i < self.files.len()
            invariant
                i <= self.files@.len(),
                out@.len() == i,
                forall|j: int| 0 <= j < i ==> self.key_chosen(
                    &#[trigger] self.files@[j].1,
                    Ok::<usize, KeyResolutionError>(out@[j]),
                ),
            decreases self.files@.len() - i,
        {
            match self.key_index(&self.files[i].1) {
                Ok(k) => {
                    out.push(k);
                },
                Err(e) => {
                    proof {
                        assert forall|j: int| 0 <= j < i implies self.resolvable(
                            &#[trigger] self.files@[j].1,
                        ) by {
                            assert(self.key_chosen(&self.files@[j].1, Ok::<usize, KeyResolutionError>(out@[j])));
                        }
                    }
                    return Err((i, e));
                },
            }
            i += 1;
        }
        Ok(out)
    }
}

// ----- permission bits written in octal -----

pub open spec fn is_octal_digit(c: u8) -> bool {
    48u8 <= c <= 55u8
}

pub open spec fn all_octal(ds: Seq<u8>) -> bool {
    forall|i: int| 0 <= i < ds.len() ==> #[trigger] is_octal_digit(ds[i])
}

/// The number that octal digits stand for.
pub open spec fn octal_value(ds: Seq<u8>) -> nat
    decreases ds.len(),
{
    if ds.len() == 0 {
        0
    } else {
        octal_value(ds.drop_last()) * 8 + (ds.last() - 48) as nat
    }
}

/// The digits of a number written with an optional leading '+'.
pub open spec fn unsigned_digits(s: Seq<u8>) -> Seq<u8> {
    if s.len() > 0 && s[0] == 43u8 {
        s.drop_first()
    } else {
        s
    }
}

/// The value of an octal number that fits in 32 bits: an optional '+', then
/// at least one digit from 0 to 7.
pub open spec fn octal_parse(s: Seq<u8>) -> Option<u32> {
    let ds = unsigned_digits(s);
    if ds.len() > 0 && all_octal(ds) && octal_value(ds) <= u32::MAX {
        Some(octal_value(ds) as u32)
    } else {
        None
    }
}

proof fn lemma_octal_prefix(ds: Seq<u8>, i: int)
    requires
        0 <= i <= ds.len(),
        forall|k: int| 0 <= k < ds.len() ==> #[trigger] is_octal_digit(ds[k]),
    ensures
        octal_value(ds.take(i)) <= octal_value(ds),
    decreases ds.len(),
{
    if i < ds.len() {
        let d = ds.drop_last();
        assert(d.take(i) =~= ds.take(i));
        lemma_octal_prefix(d, i);
    } else {
        assert(ds.take(i) =~= ds);
    }
}

/// Permission bits written as an octal number, as `u32::from_str_radix(s, 8)` reads them.
pub fn parse_mode(text: &[u8]) -> (r: Option<u32>)
    ensures
        r == octal_parse(text@),
{
    let ghost ds = unsigned_digits(text@);
    let start: usize = if text.len() > 0 && text[0] == 43 {
        1
    } else {
        0
    };
    assert(ds =~= text@.subrange(start as int, text@.len() as int));
    if start >= text.len() {
        return None;
    }
    let mut acc: u64 = 0;
    let mut i: usize = start;
    while i < text.len()
        invariant
            start <= i <= text@.len(),
            ds == text@.subrange(start as int, text@.len() as int),
            ds == unsigned_digits(text@),
            acc as nat == octal_value(ds.take(i - start)),
            acc <= u32::MAX,
            forall|k: int| 0 <= k < i - start ==> #[trigger] is_octal_digit(ds[k]),
        decreases text@.len() - i,
    {
        let c = text[i];
        if c < 48 || c > 55 {
            assert(!is_octal_digit(ds[i - start]));
            assert(!all_octal(ds));
            return None;
        }
        assert(ds.take(i - start + 1).drop_last() =~= ds.take(i - start));
        acc = acc * 8 + (c - 48) as u64;
        i += 1;
        assert(ds.take(i - start).last() == c);
        assert(acc as nat == octal_value(ds.take(i - start)));
        if acc > 0xffff_ffff {
            proof {
                if forall|k: int| 0 <= k < ds.len() ==> #[trigger] is_octal_digit(ds[k]) {
                    lemma_octal_prefix(ds, i - start);
                    assert(octal_value(ds) > u32::MAX);
                }
            }
            return None;
        }
    }
    assert(ds.take(i - start) =~= ds);
    Some(acc as u32)
}

// ----- where a secret goes -----

/// `name` under the directory `dir`, as `Path::join` makes it: a name that
/// starts with '/' replaces the directory.
pub open spec fn joined_path(dir: Seq<u8>, name: Seq<u8>) -> Seq<u8> {
    if name.len() > 0 && name[0] == 47u8 {
        name
    } else if dir.len() == 0 || dir.last() == 47u8 {
        dir + name
    } else {
        dir.push(47u8) + name
    }
}

/// The path of a secret's file.
pub fn target_path(dir: &[u8], name: &[u8]) -> (r: Vec<u8>)
    ensures
        r@ == joined_path(dir@, name@),
{
    let mut out: Vec<u8> = Vec::new();
    if !(name.len() > 0 && name[0] == 47) {
        let mut i: usize = 0;
        while i < dir.len()
            invariant
                i <= dir@.len(),
                out@ == dir@.take(i as int),
            decreases dir@.len() - i,
        {
            out.push(dir[i]);
            i += 1;
            assert(out@ =~= dir@.take(i as int));
        }
        assert(dir@.take(i as int) =~= dir@);
        if dir.len() > 0 && dir[dir.len() - 1] != 47 {
            out.push(47);
        }
    }
    let ghost base = out@;
    let mut k: usize = 0;
    while k < name.len()
        invariant
            k <= name@.len(),
            out@ == base + name@.take(k as int),
        decreases name@.len() - k,
    {
        out.push(name[k]);
        k += 1;
        assert(out@ =~= base + name@.take(k as int));
    }
    assert(name@.take(k as int) =~= name@);
    assert(out@ =~= joined_path(dir@, name@));
    out
}

// ----- the format of a manifest -----

/// The two accepted manifest syntaxes.
#[derive(Debug, Clone, Copy, PartialEq, Eq, Structural)]
pub enum Format {
    Json,
    Toml,
}

/// The syntax a manifest is read in, given which of the two parsed it: JSON
/// when both did, and none when neither did.
pub fn choose_format(json_ok: bool, toml_ok: bool) -> (r: Option<Format>)
    ensures
        json_ok ==> r == Some(Format::Json),
        !json_ok && toml_ok ==> r == Some(Format::Toml),
        !json_ok && !toml_ok ==> r is None,
{
    if json_ok {
        Some(Format::Json)
    } else if toml_ok {
        Some(Format::Toml)
    } else {
        None
    }
}

} // verus!
