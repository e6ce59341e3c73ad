//! Device secrets, one `id secret` entry per line.

use crate::crypto::{self, hash};
use crate::tables::{self, hash_map_keys};
use crate::text::{self, chars_of, parse_decimal, split_pieces, split_words};
use std::collections::HashMap;
use vstd::prelude::*;

verus! {

broadcast use vstd::std_specs::hash::group_hash_axioms;

/// Fewest bytes of a secret of the tunnel.
pub const MIN_DEVICE_SECRET: usize = 32;

/// Fewest bytes of a secret of the relay.
pub const MIN_RELAY_SECRET: usize = 16;

/// Most device keys of the tunnel.
pub const MAX_DEVICE_KEYS: usize = 65_536;

/// Who reads a keyring. The tunnel bounds the number of keys and tells a repeated
/// id from other mistakes; the relay does neither.
#[derive(Clone, Copy, Debug, PartialEq, Eq, Structural)]
pub enum KeyringKind {
    Device,
    Relay,
}

/// Why a keyring is refused. Lines are counted from one.
#[derive(Clone, Copy, Debug, PartialEq, Eq, Structural)]
pub enum KeyringError {
    InvalidKeyId { line: usize },
    MissingSecret,
    InvalidEntry { line: usize },
    DuplicateKeyId { line: usize },
    TooManyKeys,
    NoKeys,
}

/// The UTF-8 encoding of characters.
pub open spec fn utf8(chars: Seq<char>) -> Seq<u8> {
    vstd::utf8::encode_utf8(chars)
}

impl KeyringKind {
    /// Fewest bytes of a secret.
    pub open spec fn min_secret_model(self) -> nat {
        match self {
            KeyringKind::Device => MIN_DEVICE_SECRET as nat,
            KeyringKind::Relay => MIN_RELAY_SECRET as nat,
        }
    }

    /// Why an id that is there already is refused.
    pub open spec fn duplicate_model(self, line: usize) -> KeyringError {
        match self {
            KeyringKind::Device => KeyringError::DuplicateKeyId { line },
            KeyringKind::Relay => KeyringError::InvalidEntry { line },
        }
    }

    /// Whether `n` keys are too many.
    pub open spec fn too_many_model(self, n: nat) -> bool {
        self == KeyringKind::Device && n > MAX_DEVICE_KEYS
    }
}

/// Whether a line holds no entry: it has no words, or the first starts a comment.
pub open spec fn is_blank(words: Seq<Seq<char>>) -> bool {
    words.len() == 0 || words[0][0] == '#'
}

/// The entry of a line that is not blank.
pub open spec fn entry_model(words: Seq<Seq<char>>, line: usize, kind: KeyringKind) -> Result<
    (u64, Seq<char>),
    KeyringError,
> {
    match text::decimal_model(words[0], u64::MAX as nat) {
        None => Err(KeyringError::InvalidKeyId { line }),
        Some(id) => if words.len() < 2 {
            Err(KeyringError::MissingSecret)
        } else if id == 0 || utf8(words[1]).len() < kind.min_secret_model() || words.len() > 2 {
            Err(KeyringError::InvalidEntry { line })
        } else {
            Ok((id as u64, words[1]))
        },
    }
}

/// The secrets in lines, or the first mistake.
pub open spec fn entries_model(lines: Seq<Seq<char>>, kind: KeyringKind) -> Result<
    Map<u64, Seq<char>>,
    KeyringError,
>
    decreases lines.len(),
{
    if lines.len() == 0 {
        Ok(Map::empty())
    } else {
        let line = lines.len() as usize;
        let words = text::words_of(lines.last());
        match entries_model(lines.drop_last(), kind) {
            Err(e) => Err(e),
            Ok(m) => if is_blank(words) {
                Ok(m)
            } else {
                match entry_model(words, line, kind) {
                    Err(e) => Err(e),
                    Ok((id, secret)) => if m.contains_key(id) {
                        Err(kind.duplicate_model(line))
                    } else if kind.too_many_model(m.len() + 1) {
                        Err(KeyringError::TooManyKeys)
                    } else {
                        Ok(m.insert(id, secret))
                    },
                }
            },
        }
    }
}

/// The secrets in a text, or the first mistake.
pub open spec fn secrets_model(text: Seq<char>, kind: KeyringKind) -> Result<
    Map<u64, Seq<char>>,
    KeyringError,
> {
    match entries_model(text::lines_of(text), kind) {
        Err(e) => Err(e),
        Ok(m) => if m.len() == 0 {
            Err(KeyringError::NoKeys)
        } else {
            Ok(m)
        },
    }
}

/// The key of a secret.
pub open spec fn key_model(secret: Seq<char>) -> [u8; 32] {
    crypto::blake3_hash(utf8(secret))
}

/// The keys of secrets.
pub open spec fn keys_model(secrets: Map<u64, Seq<char>>) -> Map<u64, [u8; 32]> {
    Map::new(|id: u64| secrets.contains_key(id), |id: u64| key_model(secrets[id]))
}

/// Secrets as mathematical values.
pub open spec fn secret_views(secrets: Map<u64, String>) -> Map<u64, Seq<char>> {
    Map::new(|id: u64| secrets.contains_key(id), |id: u64| secrets[id]@)
}

/// Once a line is wrong, it does not matter what follows.
proof fn lemma_first_mistake(lines: Seq<Seq<char>>, n: int, kind: KeyringKind)
    requires
        0 <= n <= lines.len(),
        entries_model(lines.take(n), kind) is Err,
    ensures
        entries_model(lines, kind) == entries_model(lines.take(n), kind),
    decreases lines.len() - n,
{
    if n == lines.len() {
        assert(lines.take(n) =~= lines);
    } else {
        assert(lines.take(n + 1).drop_last() =~= lines.take(n));
        lemma_first_mistake(lines, n + 1, kind);
    }
}

/// What holds of every entry: the id is not zero and the secret is long enough.
pub open spec fn entries_valid(secrets: Map<u64, Seq<char>>, kind: KeyringKind) -> bool {
    forall|id: u64| #[trigger]
        secrets.contains_key(id) ==> id != 0 && utf8(secrets[id]).len() >= kind.min_secret_model()
}

/// A keyring that is taken has at least one entry, no reserved id and no weak
/// secret, and no more keys than there may be.
pub proof fn law_keyring_is_sound(text: Seq<char>, kind: KeyringKind, secrets: Map<u64, Seq<char>>)
    requires
        secrets_model(text, kind) == Ok::<Map<u64, Seq<char>>, KeyringError>(secrets),
    ensures
        secrets.dom().finite(),
        secrets.len() > 0,
        !kind.too_many_model(secrets.len()),
        entries_valid(secrets, kind),
{
    lemma_entries_sound(text::lines_of(text), kind, secrets);
}

/// What holds of the entries of lines.
proof fn lemma_entries_sound(
    lines: Seq<Seq<char>>,
    kind: KeyringKind,
    secrets: Map<u64, Seq<char>>,
)
    requires
        entries_model(lines, kind) == Ok::<Map<u64, Seq<char>>, KeyringError>(secrets),
    ensures
        secrets.dom().finite(),
        !kind.too_many_model(secrets.len()),
        entries_valid(secrets, kind),
    decreases lines.len(),
{
    if lines.len() > 0 {
        lemma_entries_sound(lines.drop_last(), kind, entries_model(lines.drop_last(), kind)->Ok_0);
    }
}

/// The key of a secret.
pub fn key(raw: &str) -> (digest: [u8; 32])
    ensures
        digest == key_model(raw@),
{
    hash(raw.as_bytes())
}

/// Whether the mode bits of a file keep everyone but its owner out.
pub fn is_private_mode(mode: u32) -> (private: bool)
    ensures
        private == (mode & 0o077 == 0),
{
    mode & 0o077 == 0
}

/// The entry of a line that is not blank.
fn parse_entry(words: &Vec<String>, line: usize, kind: KeyringKind) -> (entry: Result<
    (u64, String),
    KeyringError,
>)
    requires
        words@.len() > 0,
    ensures
        match entry {
            Ok((id, secret)) => entry_model(text::string_views(words@), line, kind) == Ok::<
                (u64, Seq<char>),
                KeyringError,
            >((id, secret@)),
            Err(e) => entry_model(text::string_views(words@), line, kind) == Err::<
                (u64, Seq<char>),
                KeyringError,
            >(e),
        },
{
    let ghost views = text::string_views(words@);
    assert(views[0] == words@[0]@);
    let id: u64 = match parse_decimal(words[0].as_str()) {
        Some(id) => id,
        None => return Err(KeyringError::InvalidKeyId { line }),
    };
    if words.len() < 2 {
        return Err(KeyringError::MissingSecret);
    }
    assert(views[1] == words@[1]@);
    let min_secret: usize = match kind {
        KeyringKind::Device => MIN_DEVICE_SECRET,
        KeyringKind::Relay => MIN_RELAY_SECRET,
    };
    if id == 0 || words[1].as_str().as_bytes().len() < min_secret || words.len() > 2 {
        return Err(KeyringError::InvalidEntry { line });
    }
    Ok((id, words[1].clone()))
}

/// Reads the secrets in a text.
pub fn scan_keyring(text: &str, kind: KeyringKind) -> (secrets: Result<
    HashMap<u64, String>,
    KeyringError,
>)
    ensures
        match secrets {
            Ok(m) => secrets_model(text@, kind) == Ok::<Map<u64, Seq<char>>, KeyringError>(
                secret_views(m@),
            ),
            Err(e) => secrets_model(text@, kind) == Err::<Map<u64, Seq<char>>, KeyringError>(e),
        },
{
    let chars: Vec<char> = chars_of(text);
    let lines: Vec<Vec<char>> = split_pieces(&chars, '\n');
    let ghost views = text::lines_of(text@);
    let mut secrets: HashMap<u64, String> = HashMap::new();
    let mut i: usize = 0;
    assert(views.take(0) =~= Seq::<Seq<char>>::empty());
    assert(secret_views(secrets@) =~= Map::<u64, Seq<char>>::empty());
    while i < lines.len()
        invariant
            i <= lines@.len(),
            lines@.len() == views.len(),
            views == text::lines_of(text@),
            forall|j: int| 0 <= j < lines@.len() ==> (#[trigger] lines@[j])@ == views[j],
            entries_model(views.take(i as int), kind) == Ok::<Map<u64, Seq<char>>, KeyringError>(
                secret_views(secrets@),
            ),
        decreases lines@.len() - i,
    {
        let ghost before = secret_views(secrets@);
        let ghost step = views.take(i + 1);
        assert(step.drop_last() =~= views.take(i as int));
        assert(step.last() == lines@[i as int]@);
        assert(before.dom() =~= secrets@.dom());
        let words: Vec<String> = split_words(&lines[i]);
        let ghost word_views = text::string_views(words@);
        proof {
            text::lemma_words(step.last());
        }
        let blank: bool = if words.len() == 0 {
            true
        } else {
            assert(word_views[0] == words@[0]@);
            words[0].as_str().get_char(0) == '#'
        };
        if !blank {
            let line: usize = i + 1;
            match parse_entry(&words, line, kind) {
                Err(e) => {
                    proof {
                        lemma_first_mistake(views, i + 1, kind);
                    }
                    return Err(e);
                },
                Ok((id, secret)) => {
                    if secrets.contains_key(&id) {
                        proof {
                            lemma_first_mistake(views, i + 1, kind);
                        }
                        return match kind {
                            KeyringKind::Device => Err(KeyringError::DuplicateKeyId { line }),
                            KeyringKind::Relay => Err(KeyringError::InvalidEntry { line }),
                        };
                    }
                    if kind == KeyringKind::Device && secrets.len() >= MAX_DEVICE_KEYS {
                        proof {
                            lemma_first_mistake(views, i + 1, kind);
                        }
                        return Err(KeyringError::TooManyKeys);
                    }
                    let ghost added = secret@;
                    secrets.insert(id, secret);
                    assert(secret_views(secrets@) =~= before.insert(id, added));
                },
            }
        }
        i = i + 1;
    }
    assert(views.take(i as int) =~= views);
    assert(secret_views(secrets@).dom() =~= secrets@.dom());
    if secrets.is_empty() {
        return Err(KeyringError::NoKeys);
    }
    Ok(secrets)
}

/// Reads the device keys in a text.
pub fn parse_keyring(text: &str) -> (keys: Result<HashMap<u64, [u8; 32]>, KeyringError>)
    ensures
        match secrets_model(text@, KeyringKind::Device) {
            Ok(secrets) => keys matches Ok(m) && m@ == keys_model(secrets),
            Err(e) => keys == Err::<HashMap<u64, [u8; 32]>, KeyringError>(e),
        },
{
    let secrets: HashMap<u64, String> = match scan_keyring(text, KeyringKind::Device) {
        Ok(secrets) => secrets,
        Err(e) => return Err(e),
    };
    let ghost views = secret_views(secrets@);
    let ids: Vec<u64> = hash_map_keys(&secrets);
    let mut keys: HashMap<u64, [u8; 32]> = HashMap::new();
    let mut i: usize = 0;
    while i < ids.len()
        invariant
            i <= ids@.len(),
            tables::lists(ids@, secrets@.dom()),
            views == secret_views(secrets@),
            forall|id: u64| #[trigger]
                keys@.contains_key(id) <==> ids@.take(i as int).contains(id),
            forall|id: u64| #[trigger]
                keys@.contains_key(id) ==> views.contains_key(id) && keys@[id] == key_model(
                    views[id],
                ),
        decreases ids@.len() - i,
    {
        let id: u64 = ids[i];
        proof {
            tables::lemma_listed(ids@, secrets@.dom(), i as int);
        }
        match secrets.get(&id) {
            Some(secret) => {
                keys.insert(id, key(secret.as_str()));
            },
            None => {},
        }
        i = i + 1;
    }
    proof {
        assert(ids@.take(i as int) =~= ids@);
        assert forall|id: u64| views.contains_key(id) <==> ids@.contains(id) by {
            assert(ids@.to_set().contains(id) <==> ids@.contains(id));
        }
        assert(keys@ =~= keys_model(views));
    }
    Ok(keys)
}

/// What one more line does to a keyring. A mistake before it stays. A line without words,
/// or whose first word starts with a number sign, adds nothing. Any other must have just
/// two words: a number that is not zero and a secret of thirty-two bytes at least, for the
/// relay of sixteen, and a number that is not there yet. The tunnel takes 65,536 keys.
pub proof fn law_lines_add_entries(lines: Seq<Seq<char>>, line: Seq<char>, kind: KeyringKind)
    requires
        lines.len() < usize::MAX,
    ensures
        ({
            let before = entries_model(lines, kind);
            let after = entries_model(lines.push(line), kind);
            let words = text::words_of(line);
            let number = text::decimal_model(words[0], u64::MAX as nat);
            let at = (lines.len() + 1) as usize;
            let device = kind == KeyringKind::Device;
            match before {
                Err(e) => after == before,
                Ok(m) => {
                    let blank = words.len() == 0 || words[0][0] == '#';
                    let id = number->0 as u64;
                    let length = vstd::utf8::encode_utf8(words[1]).len();
                    let odd = id == 0 || words.len() > 2 || length < 16 || device && length < 32;
                    &&& blank ==> after == before
                    &&& !blank && number is None ==> after == Err::<
                        Map<u64, Seq<char>>,
                        KeyringError,
                    >(KeyringError::InvalidKeyId { line: at })
                    &&& !blank && number is Some && words.len() == 1 ==> after == Err::<
                        Map<u64, Seq<char>>,
                        KeyringError,
                    >(KeyringError::MissingSecret)
                    &&& !blank && number is Some && words.len() > 1 && odd ==> after == Err::<
                        Map<u64, Seq<char>>,
                        KeyringError,
                    >(KeyringError::InvalidEntry { line: at })
                    &&& !blank && number is Some && words.len() > 1 && !odd && m.contains_key(id)
                        ==> after == Err::<Map<u64, Seq<char>>, KeyringError>(
                        if device {
                            KeyringError::DuplicateKeyId { line: at }
                        } else {
                            KeyringError::InvalidEntry { line: at }
                        },
                    )
                    &&& !blank && number is Some && words.len() > 1 && !odd && !m.contains_key(id)
                        && device && m.len() >= 65_536 ==> after == Err::<
                        Map<u64, Seq<char>>,
                        KeyringError,
                    >(KeyringError::TooManyKeys)
                    &&& !blank && number is Some && words.len() > 1 && !odd && !m.contains_key(id)
                        && (!device || m.len() < 65_536) ==> after == Ok::<
                        Map<u64, Seq<char>>,
                        KeyringError,
                    >(m.insert(id, words[1]))
                },
            }
        }),
        entries_model(Seq::empty(), kind) == Ok::<Map<u64, Seq<char>>, KeyringError>(Map::empty()),
{
    assert(lines.push(line).drop_last() =~= lines);
    assert(lines.push(line).last() == line);
}

/// A text is read line by line, and one without entries is refused.
pub proof fn law_texts_have_entries(text: Seq<char>, kind: KeyringKind)
    ensures
        match entries_model(text::pieces_of(text, '\n'), kind) {
            Err(e) => secrets_model(text, kind) == Err::<Map<u64, Seq<char>>, KeyringError>(e),
            Ok(m) => {
                &&& m.len() == 0 ==> secrets_model(text, kind) == Err::<
                    Map<u64, Seq<char>>,
                    KeyringError,
                >(KeyringError::NoKeys)
                &&& m.len() > 0 ==> secrets_model(text, kind) == Ok::<
                    Map<u64, Seq<char>>,
                    KeyringError,
                >(m)
            },
        },
{
}

/// Every secret has its key, the hash of its bytes, under the same number.
pub proof fn law_keys_are_hashes(secrets: Map<u64, Seq<char>>, id: u64)
    ensures
        keys_model(secrets).contains_key(id) <==> secrets.contains_key(id),
        secrets.contains_key(id) ==> keys_model(secrets)[id] == crypto::blake3_hash(
            vstd::utf8::encode_utf8(secrets[id]),
        ),
{
}

/// A file is private if its last six mode bits, those of the group and of everyone, are
/// zero.
pub proof fn law_private_files(mode: u32, private: bool)
    requires
        call_ensures(is_private_mode, (mode,), private),
    ensures
        private <==> mode % 64 == 0,
{
    assert(mode & 0o077 == mode % 64) by (bit_vector);
}

/// Secrets are seen as they are.
pub proof fn law_secrets_are_seen_as_they_are(secrets: Map<u64, String>, id: u64)
    ensures
        secret_views(secrets).contains_key(id) <==> secrets.contains_key(id),
        secrets.contains_key(id) ==> secret_views(secrets)[id] == secrets[id]@,
{
}

} // verus!
