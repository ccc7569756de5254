//! The bank file's location and the identity derived from it.
//!
//! The identity triple (author handle, player handle, bank name) seeds the
//! fingerprint payload.  When not given explicitly, it is read off the
//! path's directory structure, with `/` as the separator: the bank name is
//! the file name without its extension, the author handle is the name of
//! the directory holding the file, and the player handle is the name of
//! the directory three levels above it, as in
//! `…/<player>/<group>/<author>/<bank>`.

use vstd::prelude::*;

verus! {

use vstd::string::StrSliceExecFns;
use crate::Args;
use crate::AppError;
use crate::AppResult;

/// Why an identity could not be derived from a path.
#[derive(Debug, Clone)]
pub enum BankPathError {
    InvalidBankFileName(String),
    BankNotFound(String),
    MissingAuthorHandle(String),
    MissingPlayerHandle(String),
    InvalidPathEncoding(String),
}

/// The view of a path error: the same variant over the path's characters.
pub ghost enum BankPathErrorV {
    InvalidBankFileName(Seq<char>),
    BankNotFound(Seq<char>),
    MissingAuthorHandle(Seq<char>),
    MissingPlayerHandle(Seq<char>),
    InvalidPathEncoding(Seq<char>),
}

impl View for BankPathError {
    type V = BankPathErrorV;

    open spec fn view(&self) -> BankPathErrorV {
        match self {
            BankPathError::InvalidBankFileName(p) => BankPathErrorV::InvalidBankFileName(p@),
            BankPathError::BankNotFound(p) => BankPathErrorV::BankNotFound(p@),
            BankPathError::MissingAuthorHandle(p) => BankPathErrorV::MissingAuthorHandle(p@),
            BankPathError::MissingPlayerHandle(p) => BankPathErrorV::MissingPlayerHandle(p@),
            BankPathError::InvalidPathEncoding(p) => BankPathErrorV::InvalidPathEncoding(p@),
        }
    }
}

/// The view of a bank path: its text and identity triple.
pub ghost struct BankPathV {
    pub full_path: Seq<char>,
    pub bank_name: Seq<char>,
    pub author_handle: Seq<char>,
    pub player_handle: Seq<char>,
}

/// A bank file's path together with the identity derived for it.
#[derive(Debug, Clone)]
pub struct BankPath {
    pub full_path: String,
    pub bank_name: String,
    pub author_handle: String,
    pub player_handle: String,
}

impl View for BankPath {
    type V = BankPathV;

    open spec fn view(&self) -> BankPathV {
        BankPathV {
            full_path: self.full_path@,
            bank_name: self.bank_name@,
            author_handle: self.author_handle@,
            player_handle: self.player_handle@,
        }
    }
}

/// The path split at `/`, keeping empty pieces.
pub open spec fn split_slash(s: Seq<char>) -> Seq<Seq<char>>
    decreases s.len(),
{
    if s.len() == 0 {
        seq![Seq::empty()]
    } else if s.last() == '/' {
        split_slash(s.drop_last()).push(Seq::empty())
    } else {
        let t = split_slash(s.drop_last());
        t.update(t.len() - 1, t.last().push(s.last()))
    }
}

pub proof fn lemma_split_slash_len(s: Seq<char>)
    ensures
        split_slash(s).len() >= 1,
    decreases s.len(),
{
    if s.len() > 0 {
        lemma_split_slash_len(s.drop_last());
    }
}

/// Drops the empty pieces, leaving the path's real components.
pub open spec fn nonempty_segs(segs: Seq<Seq<char>>) -> Seq<Seq<char>>
    decreases segs.len(),
{
    if segs.len() == 0 {
        Seq::empty()
    } else if segs.last().len() > 0 {
        nonempty_segs(segs.drop_last()).push(segs.last())
    } else {
        nonempty_segs(segs.drop_last())
    }
}

/// The components of a path.
pub open spec fn path_components(s: Seq<char>) -> Seq<Seq<char>> {
    nonempty_segs(split_slash(s))
}

/// A dot splitting name from extension: past the first position, with no
/// later dot.
pub open spec fn is_ext_dot(name: Seq<char>, k: int) -> bool {
    &&& 1 <= k < name.len()
    &&& name[k] == '.'
    &&& forall|m: int| k < m < name.len() ==> (#[trigger] name[m]) != '.'
}

/// The file name without its extension: everything before the last `.`,
/// unless that would leave nothing.
pub open spec fn file_stem(name: Seq<char>) -> Seq<char> {
    if exists|k: int| is_ext_dot(name, k) {
        name.take(choose|k: int| is_ext_dot(name, k))
    } else {
        name
    }
}

/// What identity the given arguments denote, or why none can be derived:
/// each override feeds the like-named identity string; without one, the
/// author handle is the name of the directory holding the file and the
/// player handle the name of the directory three levels above it.
pub open spec fn identity_of(args: Args) -> Result<BankPathV, BankPathErrorV> {
    let path = args.bank_path@;
    let comps = path_components(path);
    let bank_name_r: Result<Seq<char>, BankPathErrorV> = match args.bank_name {
        Some(n) => Ok(n@),
        None => if comps.len() == 0 {
            Err(BankPathErrorV::InvalidBankFileName(path))
        } else {
            Ok(file_stem(comps.last()))
        },
    };
    match bank_name_r {
        Err(e) => Err(e),
        Ok(bank_name) => {
            let author_r: Result<Seq<char>, BankPathErrorV> = match args.author_handle {
                Some(h) => Ok(h@),
                None => if comps.len() >= 2 {
                    Ok(comps[comps.len() - 2])
                } else {
                    Err(BankPathErrorV::MissingAuthorHandle(path))
                },
            };
            match author_r {
                Err(e) => Err(e),
                Ok(author) => {
                    let player_r: Result<Seq<char>, BankPathErrorV> = match args.player_handle {
                        Some(h) => Ok(h@),
                        None => if comps.len() >= 4 {
                            Ok(comps[comps.len() - 4])
                        } else {
                            Err(BankPathErrorV::MissingPlayerHandle(path))
                        },
                    };
                    match player_r {
                        Err(e) => Err(e),
                        Ok(player) => Ok(
                            BankPathV {
                                full_path: path,
                                bank_name,
                                author_handle: author,
                                player_handle: player,
                            },
                        ),
                    }
                },
            }
        },
    }
}

/// Collects the path's components, as `path_components` describes.
#[verifier::loop_isolation(false)]
fn collect_components(path: &str) -> (r: Vec<String>)
    ensures
        r@.len() == path_components(path@).len(),
        forall|k: int| 0 <= k < r@.len() ==> (#[trigger] r@[k])@ == path_components(path@)[k],
{
    let len = path.unicode_len();
    let mut segs: Vec<String> = Vec::new();
    let mut cs: usize = 0;
    let mut i: usize = 0;
    proof {
        assert(path@.take(0) =~= Seq::<char>::empty());
    }
    while i < len
        invariant
            cs <= i <= len,
            len == path@.len(),
            split_slash(path@.take(i as int)).last() =~= path@.subrange(cs as int, i as int),
            nonempty_segs(split_slash(path@.take(i as int)).drop_last()).len() == segs@.len(),
            forall|k: int|
                0 <= k < segs@.len() ==> (#[trigger] segs@[k])@ == nonempty_segs(
                    split_slash(path@.take(i as int)).drop_last(),
                )[k],
        decreases len - i,
    {
        let c = path.get_char(i);
        proof {
            lemma_split_slash_len(path@.take(i as int));
            assert(path@.take(i + 1).drop_last() =~= path@.take(i as int));
            assert(path@.take(i + 1).last() == path@[i as int]);
        }
        if c == '/' {
            if i > cs {
                segs.push(path.substring_char(cs, i).to_owned());
            }
            proof {
                let t = split_slash(path@.take(i as int));
                assert(split_slash(path@.take(i + 1)) == t.push(Seq::<char>::empty()));
                assert(split_slash(path@.take(i + 1)).drop_last() =~= t);
                assert(t =~= t.drop_last().push(t.last()));
                if i > cs {
                    assert(nonempty_segs(t) == nonempty_segs(t.drop_last()).push(t.last()));
                } else {
                    assert(t.last().len() == 0);
                    assert(nonempty_segs(t) == nonempty_segs(t.drop_last()));
                }
            }
            cs = i + 1;
            proof {
                assert(split_slash(path@.take(i + 1)).last() =~= path@.subrange(
                    i + 1,
                    i + 1,
                ));
            }
        } else {
            proof {
                let t = split_slash(path@.take(i as int));
                let t2 = split_slash(path@.take(i + 1));
                assert(t2 == t.update(t.len() - 1, t.last().push(path@[i as int])));
                assert(t2.drop_last() =~= t.drop_last());
                assert(t2.last() =~= path@.subrange(cs as int, i + 1)) by {
                    assert(t.last().push(path@[i as int]) =~= path@.subrange(
                        cs as int,
                        i as int,
                    ).push(path@[i as int]));
                    assert(path@.subrange(cs as int, i as int).push(path@[i as int])
                        =~= path@.subrange(cs as int, i + 1));
                }
            }
        }
        i = i + 1;
    }
    proof {
        assert(path@.take(len as int) =~= path@);
        lemma_split_slash_len(path@);
        let t = split_slash(path@);
        assert(t =~= t.drop_last().push(t.last()));
    }
    if len > cs {
        segs.push(path.substring_char(cs, len).to_owned());
        proof {
            let t = split_slash(path@);
            assert(nonempty_segs(t) == nonempty_segs(t.drop_last()).push(t.last()));
        }
    } else {
        proof {
            let t = split_slash(path@);
            assert(t.last().len() == 0);
            assert(nonempty_segs(t) == nonempty_segs(t.drop_last()));
        }
    }
    segs
}

/// The file name without its extension, as `file_stem` describes.
#[verifier::loop_isolation(false)]
fn file_stem_exec(name: &str) -> (r: String)
    ensures
        r@ == file_stem(name@),
{
    let len = name.unicode_len();
    let mut j: usize = len;
    while j > 1
        invariant
            1 <= j <= len || (len == 0 && j == 0),
            len == name@.len(),
            forall|m: int| j <= m < len ==> (#[trigger] name@[m]) != '.',
        decreases j,
    {
        if name.get_char(j - 1) == '.' {
            let k = j - 1;
            proof {
                assert(is_ext_dot(name@, k as int));
                let kc = choose|kc: int| is_ext_dot(name@, kc);
                assert(kc == k) by {
                    if kc < k {
                        assert(name@[k as int] != '.');
                    } else if kc > k {
                        assert(name@[kc] != '.');
                    }
                }
            }
            let r = name.substring_char(0, k);
            proof {
                assert(name@.subrange(0, k as int) =~= name@.take(k as int));
            }
            return r.to_owned();
        }
        j = j - 1;
    }
    proof {
        if exists|kc: int| is_ext_dot(name@, kc) {
            let kc = choose|kc: int| is_ext_dot(name@, kc);
            assert(name@[kc] != '.');
        }
    }
    name.to_owned()
}

impl BankPath {
    /// Derives the identity from the arguments, as `identity_of`
    /// describes.  The path's existence on disk is the caller's concern.
    pub fn new(args: &Args) -> (r: AppResult<BankPath>)
        ensures
            match identity_of(*args) {
                Ok(v) => r matches Ok(bp) && bp@ == v,
                Err(ev) => r matches Err(AppError::BankPathError(e)) && e@ == ev,
            },
    {
        let comps = collect_components(args.bank_path.as_str());
        let bank_name: String = match &args.bank_name {
            Some(n) => n.clone(),
            None => {
                if comps.len() == 0 {
                    return Err(
                        AppError::BankPathError(
                            BankPathError::InvalidBankFileName(args.bank_path.clone()),
                        ),
                    );
                }
                file_stem_exec(comps[comps.len() - 1].as_str())
            },
        };
        let author_handle: String = match &args.author_handle {
            Some(h) => h.clone(),
            None => {
                if comps.len() < 2 {
                    return Err(
                        AppError::BankPathError(
                            BankPathError::MissingAuthorHandle(args.bank_path.clone()),
                        ),
                    );
                }
                comps[comps.len() - 2].clone()
            },
        };
        let player_handle: String = match &args.player_handle {
            Some(h) => h.clone(),
            None => {
                if comps.len() < 4 {
                    return Err(
                        AppError::BankPathError(
                            BankPathError::MissingPlayerHandle(args.bank_path.clone()),
                        ),
                    );
                }
                comps[comps.len() - 4].clone()
            },
        };
        Ok(
            BankPath {
                full_path: args.bank_path.clone(),
                bank_name,
                author_handle,
                player_handle,
            },
        )
    }
}

} // verus!
