//! The Connection page of a server: its address and the settings of the transport.
use crate::settings::{host_of, host_text};
use crate::sync::text_view;
use crate::reading::{ends_with, law_digits_read_back, lemma_end, number_in, without_end};
use crate::text::{chars_of, decimal, digits, is_space, law_trimmed, text_of, trim, trimmed};
use vstd::prelude::*;

verus! {

/// The settings of a server that the page shows.
#[derive(Clone, Debug)]
pub struct ConnectionSettings {
    pub url: String,
    /// How many custom headers the stored text holds.
    pub header_count: usize,
    pub disable_ssl_verify: bool,
    pub client_cert_path: Option<String>,
    pub local_network_address: Option<String>,
    pub user_agent: Option<String>,
}

/// A stored text without the whitespace around it, or words for its absence.
pub open spec fn text_or(value: Option<Seq<char>>, absent: Seq<char>) -> Seq<char> {
    match value {
        Some(value) => if trimmed(value).len() > 0 {
            trimmed(value)
        } else {
            absent
        },
        None => absent,
    }
}

fn trimmed_or(value: &Option<String>, absent: &str) -> (r: String)
    ensures
        r@ == text_or(text_view(*value), absent@),
{
    match value {
        Some(value) => {
            let text = trim(value.as_str());
            if text.as_str().is_empty() {
                String::from_str(absent)
            } else {
                text
            }
        },
        None => String::from_str(absent),
    }
}

/// The subtitle of a row that edits a text: the text, or "None".
pub fn text_subtitle(value: &Option<String>) -> (r: String)
    ensures
        r@ == text_or(text_view(*value), "None"@),
{
    trimmed_or(value, "None")
}

/// The subtitle of the user agent: the text, or "Default".
pub fn user_agent_subtitle(value: &Option<String>) -> (r: String)
    ensures
        r@ == text_or(text_view(*value), "Default"@),
{
    trimmed_or(value, "Default")
}

/// How many headers there are, in words.
pub open spec fn headers_text(count: nat) -> Seq<char> {
    if count == 0 {
        "None"@
    } else if count == 1 {
        "1 header"@
    } else {
        digits(count) + " headers"@
    }
}

/// The subtitle of the custom headers.
pub fn headers_subtitle(count: usize) -> (r: String)
    ensures
        r@ == headers_text(count as nat),
{
    match count {
        0 => String::from_str("None"),
        1 => String::from_str("1 header"),
        _ => decimal(count as u64).concat(" headers"),
    }
}

/// The place after the last slash of a path.
pub open spec fn name_start(path: Seq<char>) -> int
    decreases path.len(),
{
    if path.len() == 0 || path.last() == '/' {
        path.len() as int
    } else {
        name_start(path.drop_last())
    }
}

/// The last name of a path. Slashes at its end and components that are a single
/// dot do not count; a path that ends in two dots, or holds no name, has none.
pub open spec fn file_name(path: Seq<char>) -> Option<Seq<char>>
    decreases path.len(),
    via file_name_decreases
{
    let i = name_start(path);
    let name = path.skip(i);
    if name.len() == 0 || name == seq!['.'] {
        if i == 0 {
            None
        } else {
            file_name(path.take(i - 1))
        }
    } else if name == seq!['.', '.'] {
        None
    } else {
        Some(name)
    }
}

#[via_fn]
proof fn file_name_decreases(path: Seq<char>) {
    lemma_name_start(path);
}

proof fn lemma_name_start(path: Seq<char>)
    ensures
        0 <= name_start(path) <= path.len(),
        name_start(path) > 0 ==> path[name_start(path) - 1] == '/',
    decreases path.len(),
{
    if path.len() > 0 && path.last() != '/' {
        lemma_name_start(path.drop_last());
    }
}

/// The last name of the first `end` characters of a path, as a range.
fn find_name(v: &Vec<char>, end: usize) -> (r: Option<(usize, usize)>)
    requires
        end <= v.len(),
    ensures
        match r {
            Some((from, to)) => from <= to <= v.len() && file_name(v@.take(end as int)) == Some(
                v@.subrange(from as int, to as int),
            ),
            None => file_name(v@.take(end as int)) is None,
        },
    decreases end,
{
    let ghost path = v@.take(end as int);
    let mut from: usize = end;
    assert(path.take(end as int) =~= path);
    while from > 0 && v[from - 1] != '/'
        invariant
            from <= end <= v.len(),
            path == v@.take(end as int),
            name_start(path.take(from as int)) == name_start(path),
        decreases from,
    {
        assert(path.take(from as int).last() == v[from - 1]);
        assert(path.take(from as int).drop_last() =~= path.take(from - 1));
        from = from - 1;
    }
    proof {
        if from > 0 {
            assert(path.take(from as int).last() == v[from - 1]);
        }
        assert(name_start(path) == from);
        assert(path.skip(from as int) =~= v@.subrange(from as int, end as int));
        lemma_name_start(path);
    }
    let len: usize = end - from;
    let ghost name = path.skip(from as int);
    proof {
        assert(name == seq!['.'] <==> len == 1 && v[from as int] == '.') by {
            if len == 1 {
                assert(name[0] == v[from as int]);
                if v[from as int] == '.' {
                    assert(name =~= seq!['.']);
                }
            }
        }
        assert(name == seq!['.', '.'] <==> len == 2 && v[from as int] == '.' && v[from + 1] == '.') by {
            if len == 2 {
                assert(name[0] == v[from as int] && name[1] == v[from + 1]);
                if v[from as int] == '.' && v[from + 1] == '.' {
                    assert(name =~= seq!['.', '.']);
                }
            }
            if name == seq!['.', '.'] {
                assert(name.len() == 2);
            }
        }
    }
    if len == 0 || (len == 1 && v[from] == '.') {
        if from == 0 {
            None
        } else {
            assert(path.take(from - 1) =~= v@.take(from - 1));
            find_name(v, from - 1)
        }
    } else if len == 2 && v[from] == '.' && v[from + 1] == '.' {
        None
    } else {
        Some((from, end))
    }
}

/// The subtitle of the client certificate: the name of the file, or the path
/// where it has none; "None" without a certificate.
pub open spec fn cert_text(path: Option<Seq<char>>) -> Seq<char> {
    match path {
        Some(path) => match file_name(path) {
            Some(name) => name,
            None => path,
        },
        None => "None"@,
    }
}

/// The subtitle of the client certificate.
pub fn cert_subtitle(path: &Option<String>) -> (r: String)
    ensures
        r@ == cert_text(text_view(*path)),
{
    match path {
        Some(path) => {
            let v = chars_of(path.as_str());
            assert(v@.take(v.len() as int) =~= v@);
            match find_name(&v, v.len()) {
                Some((from, to)) => text_of(&v, from, to),
                None => path.clone(),
            }
        },
        None => String::from_str("None"),
    }
}

/// What the page shows.
#[derive(Clone, Debug)]
pub struct ConnectionScreen {
    pub title: String,
    pub url: String,
    pub headers: String,
    pub disable_ssl_verify: bool,
    pub certificate: String,
    pub local_address: String,
    pub user_agent: String,
    pub can_disconnect: bool,
}

/// The page of a server. There is something to disconnect where an account is
/// signed in.
pub fn build(server: &ConnectionSettings, signed_in: bool) -> (r: ConnectionScreen)
    ensures
        r.title@ == host_text(server.url@),
        r.url@ == server.url@,
        r.headers@ == headers_text(server.header_count as nat),
        r.disable_ssl_verify == server.disable_ssl_verify,
        r.certificate@ == cert_text(text_view(server.client_cert_path)),
        r.local_address@ == text_or(text_view(server.local_network_address), "None"@),
        r.user_agent@ == text_or(text_view(server.user_agent), "Default"@),
        r.can_disconnect == signed_in,
{
    ConnectionScreen {
        title: host_of(server.url.as_str()),
        url: server.url.clone(),
        headers: headers_subtitle(server.header_count),
        disable_ssl_verify: server.disable_ssl_verify,
        certificate: cert_subtitle(&server.client_cert_path),
        local_address: text_subtitle(&server.local_network_address),
        user_agent: user_agent_subtitle(&server.user_agent),
        can_disconnect: signed_in,
    }
}

/// What an editor does when "Save" is pressed.
#[derive(Clone, Debug)]
pub enum SaveStep {
    /// Stays open and shows the text.
    ShowError(String),
    /// Stores the text, or clears what is stored.
    Store(Option<String>),
}

/// What an editor does once storing has ended.
#[derive(Clone, Debug)]
pub enum StoredStep {
    /// The row takes the subtitle and the editor closes.
    Close(String),
    /// Stays open and shows the text.
    ShowError(String),
    /// Stays open.
    Stay,
}

/// Saving the local address, given what its validation says.
pub fn save_local_address(validated: Result<String, String>) -> (r: SaveStep)
    ensures
        match validated {
            Err(message) => r == SaveStep::ShowError(message),
            Ok(address) => r == SaveStep::Store(
                if address@.len() == 0 {
                    None
                } else {
                    Some(address)
                },
            ),
        },
{
    match validated {
        Err(message) => SaveStep::ShowError(message),
        Ok(address) => {
            if address.as_str().is_empty() {
                SaveStep::Store(None)
            } else {
                SaveStep::Store(Some(address))
            }
        },
    }
}

/// The local address has been stored, or could not be.
pub fn local_address_stored(stored: &Option<String>, succeeded: bool) -> (r: StoredStep)
    ensures
        match r {
            StoredStep::Close(subtitle) => succeeded && subtitle@ == text_or(text_view(*stored), "None"@),
            StoredStep::Stay => !succeeded,
            StoredStep::ShowError(_) => false,
        },
{
    if succeeded {
        StoredStep::Close(text_subtitle(stored))
    } else {
        StoredStep::Stay
    }
}

/// Saving the user agent: without the whitespace around it, nothing as the default.
pub fn save_user_agent(text: &str) -> (r: SaveStep)
    ensures
        match r {
            SaveStep::Store(Some(agent)) => trimmed(text@).len() > 0 && agent@ == trimmed(text@),
            SaveStep::Store(None) => trimmed(text@).len() == 0,
            SaveStep::ShowError(_) => false,
        },
{
    let agent = trim(text);
    if agent.as_str().is_empty() {
        SaveStep::Store(None)
    } else {
        SaveStep::Store(Some(agent))
    }
}

/// The user agent has been stored, or could not be, with the text of the error.
pub fn user_agent_stored(stored: &Option<String>, result: Result<(), String>) -> (r: StoredStep)
    ensures
        match result {
            Ok(_) => r matches StoredStep::Close(subtitle) && subtitle@ == match stored {
                Some(agent) => agent@,
                None => "Default"@,
            },
            Err(error) => r == StoredStep::ShowError(error),
        },
{
    match result {
        Ok(_) => StoredStep::Close(
            match stored {
                Some(agent) => agent.clone(),
                None => String::from_str("Default"),
            },
        ),
        Err(error) => StoredStep::ShowError(error),
    }
}

/// Saving the custom headers, given what their validation says: the text to store.
pub fn save_headers(validated: Result<String, String>) -> (r: SaveStep)
    ensures
        match validated {
            Err(message) => r == SaveStep::ShowError(message),
            Ok(json) => r == SaveStep::Store(Some(json)),
        },
{
    match validated {
        Err(message) => SaveStep::ShowError(message),
        Ok(json) => SaveStep::Store(Some(json)),
    }
}

/// The custom headers have been stored, or could not be.
pub fn headers_stored(count: usize, succeeded: bool) -> (r: StoredStep)
    ensures
        match r {
            StoredStep::Close(subtitle) => succeeded && subtitle@ == headers_text(count as nat),
            StoredStep::Stay => !succeeded,
            StoredStep::ShowError(_) => false,
        },
{
    if succeeded {
        StoredStep::Close(headers_subtitle(count))
    } else {
        StoredStep::Stay
    }
}

/// What the editor of the client certificate is to do next.
#[derive(Clone, Debug)]
pub enum CertStep {
    /// Stays open and shows the text.
    ShowError(String),
    /// Has the bundle and its password validated.
    Validate(String, Option<String>),
    /// Stores the path; the password follows.
    StorePath(Option<String>, Option<String>),
    /// Stores the password.
    StorePassword(Option<String>, Option<String>),
    /// The row takes the subtitle and the editor closes.
    Close(String),
    /// Stays open.
    Stay,
}

/// The editor of the client certificate.
#[derive(Clone, Debug)]
pub struct CertEditor {
    /// The file that is chosen.
    pub chosen: Option<String>,
    pub file_label: String,
    /// Whether there is a certificate to remove.
    pub can_remove: bool,
}

impl CertEditor {
    /// Opens with the certificate that is stored.
    pub fn new(current_path: &Option<String>) -> (r: CertEditor)
        ensures
            r.chosen == *current_path,
            r.can_remove == (current_path is Some),
            r.file_label@ == match current_path {
                Some(path) => path@,
                None => "No file chosen"@,
            },
    {
        match current_path {
            Some(path) => CertEditor { chosen: Some(path.clone()), file_label: path.clone(), can_remove: true },
            None => CertEditor {
                chosen: None,
                file_label: String::from_str("No file chosen"),
                can_remove: false,
            },
        }
    }

    /// A file has been chosen; `None` where the choice was cancelled.
    pub fn file_chosen(self, path: Option<String>) -> (r: CertEditor)
        ensures
            match path {
                Some(path) => r.chosen == Some(path) && r.file_label == path && r.can_remove == self.can_remove,
                None => r == self,
            },
    {
        match path {
            Some(path) => CertEditor { chosen: Some(path.clone()), file_label: path, ..self },
            None => self,
        }
    }

    /// "Save" is pressed. A file has to be chosen; an empty password is none.
    pub fn save_pressed(&self, password: &String) -> (r: CertStep)
        ensures
            match self.chosen {
                None => r matches CertStep::ShowError(text) && text@ == "Choose a certificate file first."@,
                Some(path) => r == CertStep::Validate(
                    path,
                    if password@.len() == 0 {
                        None
                    } else {
                        Some(*password)
                    },
                ),
            },
    {
        match &self.chosen {
            None => CertStep::ShowError(String::from_str("Choose a certificate file first.")),
            Some(path) => {
                let kept = if password.as_str().is_empty() {
                    None
                } else {
                    Some(password.clone())
                };
                CertStep::Validate(path.clone(), kept)
            },
        }
    }
}

/// The bundle has been validated. Only a valid one is stored.
pub fn cert_validated(path: String, password: Option<String>, result: Result<(), String>) -> (r: CertStep)
    ensures
        match result {
            Err(message) => r == CertStep::ShowError(message),
            Ok(_) => r == CertStep::StorePath(Some(path), password),
        },
{
    match result {
        Err(message) => CertStep::ShowError(message),
        Ok(_) => CertStep::StorePath(Some(path), password),
    }
}

/// "Remove Certificate" is pressed: both the path and the password are cleared.
pub fn cert_removed() -> (r: CertStep)
    ensures
        r == CertStep::StorePath(None, None),
{
    CertStep::StorePath(None, None)
}

/// The path has been stored, or could not be. The password follows a success.
pub fn cert_path_stored(path: Option<String>, password: Option<String>, succeeded: bool) -> (r: CertStep)
    ensures
        r == if succeeded {
            CertStep::StorePassword(path, password)
        } else {
            CertStep::Stay
        },
{
    if succeeded {
        CertStep::StorePassword(path, password)
    } else {
        CertStep::Stay
    }
}

/// The password has been stored, or could not be.
pub fn cert_password_stored(path: &Option<String>, succeeded: bool) -> (r: CertStep)
    ensures
        match r {
            CertStep::Close(subtitle) => succeeded && subtitle@ == cert_text(text_view(*path)),
            CertStep::Stay => !succeeded,
            _ => false,
        },
{
    if succeeded {
        CertStep::Close(cert_subtitle(path))
    } else {
        CertStep::Stay
    }
}

/// Whitespace around a stored text does not show, and a text of nothing else
/// shows as absent.
pub proof fn law_text_trimmed(value: Seq<char>, absent: Seq<char>)
    ensures
        text_or(Some(trimmed(value)), absent) == text_or(Some(value), absent),
        trimmed(value).len() == 0 ==> text_or(Some(value), absent) == text_or(None, absent),
{
    crate::text::lemma_trimmed_ends(value);
}

/// The name of a file has no slash.
pub proof fn law_file_name(path: Seq<char>)
    ensures
        file_name(path) matches Some(name) ==> name.len() > 0 && !name.contains('/'),
    decreases path.len(),
{
    let i = name_start(path);
    lemma_name_start(path);
    lemma_name_clear(path);
    let name = path.skip(i);
    if name.len() == 0 || name == seq!['.'] {
        if i > 0 {
            law_file_name(path.take(i - 1));
        }
    }
}

proof fn lemma_name_clear(path: Seq<char>)
    ensures
        !path.skip(name_start(path)).contains('/'),
    decreases path.len(),
{
    lemma_name_start(path);
    let name = path.skip(name_start(path));
    if path.len() > 0 && path.last() != '/' {
        let init = path.drop_last();
        lemma_name_clear(init);
        lemma_name_start(init);
        let before = init.skip(name_start(init));
        if name.contains('/') {
            let k = choose|k: int| 0 <= k < name.len() && name[k] == '/';
            if k < before.len() {
                assert(before[k] == '/');
                assert(before.contains('/'));
            } else {
                assert(name[k] == path.last());
            }
        }
    }
}

/// How many headers there are is written before the word for them; without any
/// there is a word for that.
pub proof fn law_headers_read_back(count: nat)
    ensures
        count == 0 <==> headers_text(count) == "None"@,
        count == 1 ==> headers_text(count) == "1 header"@,
        count > 1 ==> ends_with(headers_text(count), " headers"@) && number_in(
            without_end(headers_text(count), " headers"@),
        ) == count,
{
    law_digits_read_back(count);
    lemma_end(digits(count), " headers"@);
    reveal_strlit("None");
    reveal_strlit("1 header");
    if count > 1 {
        assert(headers_text(count)[0] == digits(count)[0]);
        assert("None"@[0] == 'N');
        assert('0' <= digits(count)[0] <= '9');
    } else if count == 1 {
        assert("1 header"@[0] == '1' && "None"@[0] == 'N');
    }
}

/// The name of a file is what follows the last slash of its path, whatever
/// directory it is in, also where a slash follows it.
pub proof fn law_file_name_of_path(directory: Seq<char>, name: Seq<char>)
    requires
        name.len() > 0,
        !name.contains('/'),
        name != seq!['.'],
        name != seq!['.', '.'],
    ensures
        file_name(name) == Some(name),
        file_name(directory + seq!['/'] + name) == Some(name),
        file_name(directory + seq!['/'] + name + seq!['/']) == Some(name),
{
    lemma_start_after(Seq::empty(), name);
    assert(name.skip(0) =~= name);
    let path = directory + seq!['/'] + name;
    lemma_start_after(directory + seq!['/'], name);
    assert(path.skip(directory.len() as int + 1) =~= name);
    let slashed = path + seq!['/'];
    assert(slashed.last() == '/');
    assert(slashed.skip(slashed.len() as int) =~= Seq::empty());
    assert(slashed.take(slashed.len() - 1) =~= path);
}

proof fn lemma_start_after(head: Seq<char>, name: Seq<char>)
    requires
        !name.contains('/'),
        head.len() > 0 ==> head.last() == '/',
    ensures
        name_start(head + name) == head.len(),
    decreases name.len(),
{
    let path = head + name;
    if name.len() == 0 {
        assert(path =~= head);
    } else {
        assert(name.contains(name.last()));
        assert(path.last() == name.last());
        let shorter = name.drop_last();
        assert(!shorter.contains('/')) by {
            if shorter.contains('/') {
                let i = choose|i: int| 0 <= i < shorter.len() && shorter[i] == '/';
                assert(name[i] == '/');
            }
        }
        lemma_start_after(head, shorter);
        assert(path.drop_last() =~= head + shorter);
    }
}

/// A certificate is shown by the name of its file; without one there is a word
/// for that, and a path without a name is shown whole.
pub proof fn law_certificate(path: Seq<char>)
    ensures
        cert_text(None) == "None"@,
        file_name(path) matches Some(name) ==> cert_text(Some(path)) == name,
        file_name(path) is None ==> cert_text(Some(path)) == path,
{
}

/// A stored text is shown without the whitespace around it; what stands for its
/// absence shows where there is nothing else.
pub proof fn law_text_shown(before: Seq<char>, text: Seq<char>, after: Seq<char>, absent: Seq<char>)
    requires
        forall|k: int| 0 <= k < before.len() ==> is_space(#[trigger] before[k]),
        forall|k: int| 0 <= k < after.len() ==> is_space(#[trigger] after[k]),
        text.len() > 0 ==> !is_space(text[0]) && !is_space(text.last()),
    ensures
        text_or(None, absent) == absent,
        text.len() > 0 ==> text_or(Some(before + text + after), absent) == text,
        text.len() == 0 ==> text_or(Some(before + text + after), absent) == absent,
{
    law_trimmed(before, text, after);
}

/// A slash at the end of a path, with or without a single dot after it, changes
/// nothing of its name; after two dots it has none.
pub proof fn law_file_name_ends(path: Seq<char>)
    ensures
        file_name(path + seq!['/']) == file_name(path),
        file_name(path + seq!['/', '.']) == file_name(path),
        file_name(path + seq!['/', '.', '.']) is None,
        file_name(seq!['.']) is None,
        file_name(Seq::empty()) is None,
{
    let slashed = path + seq!['/'];
    assert(slashed.last() == '/');
    assert(slashed.skip(slashed.len() as int) =~= Seq::empty());
    assert(slashed.take(slashed.len() - 1) =~= path);
    let dotted = path + seq!['/', '.'];
    lemma_start_after(slashed, seq!['.']);
    assert(dotted =~= slashed + seq!['.']);
    assert(dotted.skip(slashed.len() as int) =~= seq!['.']);
    assert(dotted.take(slashed.len() - 1) =~= path);
    let twice = path + seq!['/', '.', '.'];
    lemma_start_after(slashed, seq!['.', '.']);
    assert(twice =~= slashed + seq!['.', '.']);
    assert(twice.skip(slashed.len() as int) =~= seq!['.', '.']);
    assert(seq!['.', '.'].len() != seq!['.'].len());
    lemma_start_after(Seq::empty(), seq!['.']);
    assert(Seq::<char>::empty() + seq!['.'] =~= seq!['.']);
    assert(seq!['.'].skip(0) =~= seq!['.']);
    assert(Seq::<char>::empty().skip(0) =~= Seq::empty());
}

} // verus!
