//! The version-metadata table: labels and messages attached to version
//! indices handed out by the versioning surface.
//!
//! A label is a short name without whitespace; within one manager every
//! label is unique.  The manager never inspects timelines or patches — it
//! works purely in terms of version indices.

use vstd::prelude::*;

verus! {

broadcast use vstd::string::group_string_axioms;

/// Whether `c` carries the Unicode white-space property, the characters a
/// label may not contain.
pub open spec fn is_space_char(c: char) -> bool {
    ||| c == '\u{0009}'
    ||| c == '\u{000a}'
    ||| c == '\u{000b}'
    ||| c == '\u{000c}'
    ||| c == '\u{000d}'
    ||| c == ' '
    ||| c == '\u{0085}'
    ||| c == '\u{00a0}'
    ||| c == '\u{1680}'
    ||| c == '\u{2000}'
    ||| c == '\u{2001}'
    ||| c == '\u{2002}'
    ||| c == '\u{2003}'
    ||| c == '\u{2004}'
    ||| c == '\u{2005}'
    ||| c == '\u{2006}'
    ||| c == '\u{2007}'
    ||| c == '\u{2008}'
    ||| c == '\u{2009}'
    ||| c == '\u{200a}'
    ||| c == '\u{2028}'
    ||| c == '\u{2029}'
    ||| c == '\u{202f}'
    ||| c == '\u{205f}'
    ||| c == '\u{3000}'
}

/// A valid label name holds no whitespace character at all.
pub open spec fn valid_label(name: Seq<char>) -> bool {
    forall|i: int| 0 <= i < name.len() ==> !is_space_char(#[trigger] name[i])
}

/// Why a label was rejected.
#[derive(Debug, Clone, Copy, PartialEq, Eq, Structural)]
pub enum LabelError {
    /// The proposed name holds a whitespace character.
    ContainsWhitespace,
}

/// A short, whitespace-free name that can be attached to a version.
#[derive(Debug, Clone, PartialEq, Eq)]
pub struct Label {
    name: String,
}

impl View for Label {
    type V = Seq<char>;

    closed spec fn view(&self) -> Seq<char> {
        self.name@
    }
}

/// Whether `c` carries the Unicode white-space property.
fn is_space(c: char) -> (r: bool)
    ensures
        r == is_space_char(c),
{
    match c {
        '\u{0009}' | '\u{000a}' | '\u{000b}' | '\u{000c}' | '\u{000d}' | ' ' | '\u{0085}'
            | '\u{00a0}' | '\u{1680}' | '\u{2000}' | '\u{2001}' | '\u{2002}' | '\u{2003}'
            | '\u{2004}' | '\u{2005}' | '\u{2006}' | '\u{2007}' | '\u{2008}' | '\u{2009}'
            | '\u{200a}' | '\u{2028}' | '\u{2029}' | '\u{202f}' | '\u{205f}' | '\u{3000}' => true,
        _ => false,
    }
}

impl Label {
    /// Whether the name contains no whitespace and can therefore name a
    /// label.
    pub fn is_valid_name(name: &str) -> (r: bool)
        ensures
            r == valid_label(name@),
    {
        for c in it: name.chars()
            invariant
                it.seq() == name@,
                forall|j: int| 0 <= j < it.index() ==> !is_space_char(#[trigger] name@[j]),
        {
            if is_space(c) {
                return false;
            }
        }
        true
    }

    /// Wraps a whitespace-free name into a label; a name with whitespace is
    /// rejected, exactly when `is_valid_name` says no.
    pub fn new(name: &str) -> (r: Result<Label, LabelError>)
        ensures
            r matches Ok(l) ==> valid_label(name@) && l@ == name@,
            r matches Err(e) ==> !valid_label(name@) && e == LabelError::ContainsWhitespace,
    {
        if Label::is_valid_name(name) {
            Ok(Label { name: name.to_owned() })
        } else {
            Err(LabelError::ContainsWhitespace)
        }
    }

    /// The label's name.
    pub fn name(&self) -> (r: &str)
        ensures
            r@ == self@,
    {
        self.name.as_str()
    }
}

/// Whether two labels spell the same name.
fn labels_equal(a: &Label, b: &Label) -> (r: bool)
    ensures
        r == (a@ == b@),
{
    a.name == b.name
}

/// A version named either by its index or by a label attached to it.
#[derive(Debug, Clone, PartialEq, Eq)]
pub enum VersionIdentifier {
    /// The version at this index.
    Index(usize),
    /// The version carrying this label.
    Label(Label),
}

impl VersionIdentifier {
    /// Names the version carrying the label.
    pub fn from_label(label: Label) -> (r: Self)
        ensures
            r == VersionIdentifier::Label(label),
    {
        VersionIdentifier::Label(label)
    }

    /// Names the version at the index.
    pub fn from_index(index: usize) -> (r: Self)
        ensures
            r == VersionIdentifier::Index(index),
    {
        VersionIdentifier::Index(index)
    }

    /// The index behind this identifier, if it is one.
    pub fn index(&self) -> (r: Option<usize>)
        ensures
            r == if self is Index {
                Some(self->Index_0)
            } else {
                None::<usize>
            },
    {
        match self {
            VersionIdentifier::Index(index) => Some(*index),
            _ => None,
        }
    }

    /// The label behind this identifier, if it is one.
    pub fn label(&self) -> (r: Option<&Label>)
        ensures
            self is Label <==> (r matches Some(l) && *self == VersionIdentifier::Label(*l)),
            self is Index <==> r is None,
    {
        match self {
            VersionIdentifier::Label(label) => Some(label),
            _ => None,
        }
    }
}

/// The metadata attached to one version: its index, and an optional unique
/// label and free-form message.
#[derive(Debug, Clone, PartialEq, Eq)]
pub struct VersionInfo {
    index: usize,
    label: Option<Label>,
    message: Option<String>,
}

impl VersionInfo {
    /// The index of the version this info describes.
    pub closed spec fn spec_index(&self) -> usize {
        self.index
    }

    /// The label attached to the version, if any.
    pub closed spec fn spec_label(&self) -> Option<Label> {
        self.label
    }

    /// The message attached to the version, if any.
    pub closed spec fn spec_message(&self) -> Option<String> {
        self.message
    }

    /// Bare metadata for the version at `index`: no label, no message.
    pub fn new(index: usize) -> (r: Self)
        ensures
            r.spec_index() == index,
            r.spec_label() is None,
            r.spec_message() is None,
    {
        VersionInfo { index, label: None, message: None }
    }

    /// Metadata for the version at `index` carrying a message.
    pub fn with_message(index: usize, message: &str) -> (r: Self)
        ensures
            r.spec_index() == index,
            r.spec_label() is None,
            r.spec_message() matches Some(m) && m@ == message@,
    {
        VersionInfo { index, label: None, message: Some(message.to_owned()) }
    }

    /// The index of the version this info describes.
    pub fn index(&self) -> (r: usize)
        ensures
            r == self.spec_index(),
    {
        self.index
    }

    /// The label attached to the version, if any.
    pub fn label(&self) -> (r: Option<&Label>)
        ensures
            self.spec_label() is Some <==> (r matches Some(l) && self.spec_label() == Some(*l)),
            self.spec_label() is None <==> r is None,
    {
        match &self.label {
            Some(label) => Some(label),
            None => None,
        }
    }

    /// The message attached to the version, if any.
    pub fn message(&self) -> (r: Option<&str>)
        ensures
            self.spec_message() is Some <==> (r matches Some(m) && self.spec_message() matches Some(
                sm,
            ) && sm@ == m@),
            self.spec_message() is None <==> r is None,
    {
        match &self.message {
            Some(message) => Some(message.as_str()),
            None => None,
        }
    }

    /// Attaches the label; the manager checks uniqueness before calling
    /// this.
    pub fn set_label(&mut self, label: Label)
        ensures
            final(self).spec_index() == old(self).spec_index(),
            final(self).spec_label() == Some(label),
            final(self).spec_message() == old(self).spec_message(),
    {
        self.label = Some(label);
    }

    /// Attaches the message, replacing any earlier one.
    pub fn set_message(&mut self, message: &str)
        ensures
            final(self).spec_index() == old(self).spec_index(),
            final(self).spec_label() == old(self).spec_label(),
            final(self).spec_message() matches Some(m) && m@ == message@,
    {
        self.message = Some(message.to_owned());
    }

    /// Detaches the label.
    pub fn clear_label(&mut self)
        ensures
            final(self).spec_index() == old(self).spec_index(),
            final(self).spec_label() is None,
            final(self).spec_message() == old(self).spec_message(),
    {
        self.label = None;
    }

    /// Detaches the message.
    pub fn clear_message(&mut self)
        ensures
            final(self).spec_index() == old(self).spec_index(),
            final(self).spec_label() == old(self).spec_label(),
            final(self).spec_message() is None,
    {
        self.message = None;
    }

    /// How the version is best named: by its label when it carries one, by
    /// its index otherwise.
    pub fn identifier(&self) -> (r: VersionIdentifier)
        ensures
            self.spec_label() matches Some(l) ==> (r matches VersionIdentifier::Label(rl) && rl@
                == l@),
            self.spec_label() is None ==> r == VersionIdentifier::Index(self.spec_index()),
    {
        match &self.label {
            Some(label) => VersionIdentifier::Label(label.duplicate()),
            None => VersionIdentifier::Index(self.index),
        }
    }
}

impl Label {
    /// A copy of the label spelling the same name.
    fn duplicate(&self) -> (r: Self)
        ensures
            r@ == self@,
    {
        Label { name: self.name.clone() }
    }
}

/// Whether the info `v` is the version that `id` names.
pub open spec fn matches_id(v: VersionInfo, id: VersionIdentifier) -> bool {
    match id {
        VersionIdentifier::Index(index) => v.spec_index() == index,
        VersionIdentifier::Label(label) => v.spec_label() matches Some(l) && l@ == label@,
    }
}

/// Whether position `i` holds the first info that `id` names.
pub open spec fn match_at(versions: Seq<VersionInfo>, id: VersionIdentifier, i: int) -> bool {
    &&& 0 <= i < versions.len()
    &&& matches_id(versions[i], id)
    &&& forall|j: int| 0 <= j < i ==> !matches_id(#[trigger] versions[j], id)
}

/// Whether some stored info carries the label.
pub open spec fn has_label(versions: Seq<VersionInfo>, label: Seq<char>) -> bool {
    exists|i: int|
        0 <= i < versions.len() && ((#[trigger] versions[i].spec_label()) matches Some(l) && l@
            == label)
}

/// Why a metadata operation was refused.
#[derive(Debug, Clone, Copy, PartialEq, Eq, Structural)]
pub enum VersionInfoManagerError {
    /// No stored version matches the given identifier.
    VersionIdentifierNotFound,
    /// Another version already carries the given label.
    DuplicateLabel,
}

/// The table of version metadata, ordered by insertion.
#[derive(Debug, Clone, PartialEq, Eq)]
pub struct VersionInfoManager {
    versions: Vec<VersionInfo>,
}

impl View for VersionInfoManager {
    type V = Seq<VersionInfo>;

    closed spec fn view(&self) -> Seq<VersionInfo> {
        self.versions@
    }
}

impl VersionInfoManager {
    /// An empty table.
    pub fn new() -> (r: Self)
        ensures
            r@ == Seq::<VersionInfo>::empty(),
    {
        VersionInfoManager { versions: Vec::new() }
    }

    /// A table over the given infos, in their given order.
    pub fn from_versions(versions: Vec<VersionInfo>) -> (r: Self)
        ensures
            r@ == versions@,
    {
        VersionInfoManager { versions }
    }

    /// The stored infos, in insertion order.
    pub fn versions(&self) -> (r: &Vec<VersionInfo>)
        ensures
            r@ == self@,
    {
        &self.versions
    }

    /// The position of the first info the identifier names, if any.
    fn position_of(&self, version_identifier: &VersionIdentifier) -> (r: Option<usize>)
        ensures
            r matches Some(i) ==> match_at(self@, *version_identifier, i as int),
            r is None ==> (forall|i: int|
                0 <= i < self@.len() ==> !matches_id(#[trigger] self@[i], *version_identifier)),
    {
        let n = self.versions.len();
        let mut i: usize = 0;
        while i < n
            invariant
                0 <= i <= n,
                n == self@.len(),
                forall|j: int| 0 <= j < i ==> !matches_id(#[trigger] self@[j], *version_identifier),
            decreases n - i,
        {
            let found: bool = match (version_identifier, self.versions[i].label()) {
                (VersionIdentifier::Index(index), _) => self.versions[i].index() == *index,
                (VersionIdentifier::Label(label), Some(l)) => labels_equal(l, label),
                (VersionIdentifier::Label(_), None) => false,
            };
            if found {
                return Some(i);
            }
            i = i + 1;
        }
        None
    }

    /// The first stored info the identifier names, if any.
    pub fn get(&self, version_identifier: &VersionIdentifier) -> (r: Option<&VersionInfo>)
        ensures
            r matches Some(v) ==> (exists|i: int|
                match_at(self@, *version_identifier, i) && *v == self@[i]),
            r is None ==> (forall|i: int|
                0 <= i < self@.len() ==> !matches_id(#[trigger] self@[i], *version_identifier)),
    {
        match self.position_of(version_identifier) {
            Some(i) => Some(&self.versions[i]),
            None => None,
        }
    }

    /// A mutable handle on the first stored info the identifier names, if
    /// any.
    pub fn get_mut(&mut self, version_identifier: &VersionIdentifier) -> (r: Option<
        &mut VersionInfo,
    >)
        ensures
            r matches Some(v) ==> (exists|i: int|
                match_at(old(self)@, *version_identifier, i) && *v == old(self)@[i] && final(self)@
                    == old(self)@.update(i, *final(v))),
            r is None ==> final(self)@ == old(self)@ && (forall|i: int|
                0 <= i < old(self)@.len() ==> !matches_id(
                    #[trigger] old(self)@[i],
                    *version_identifier,
                )),
    {
        match self.position_of(version_identifier) {
            Some(i) => Some(&mut self.versions[i]),
            None => None,
        }
    }

    /// Whether some stored version already carries the label.
    pub fn contains_label(&self, label: &Label) -> (r: bool)
        ensures
            r == has_label(self@, label@),
    {
        let n = self.versions.len();
        let mut i: usize = 0;
        while i < n
            invariant
                0 <= i <= n,
                n == self@.len(),
                forall|j: int|
                    0 <= j < i ==> !((#[trigger] self@[j].spec_label()) matches Some(l) && l@
                        == label@),
            decreases n - i,
        {
            match self.versions[i].label() {
                Some(l) => {
                    if labels_equal(l, label) {
                        return true;
                    }
                },
                None => {},
            }
            i = i + 1;
        }
        false
    }

    /// Attaches the label to the version the identifier names.  Refused when
    /// another version already carries the label — labels stay unique — or
    /// when nothing matches the identifier; the table is then unchanged.
    pub fn set_label(&mut self, version_identifier: &VersionIdentifier, label: Label) -> (r: Result<
        (),
        VersionInfoManagerError,
    >)
        ensures
            has_label(old(self)@, label@) ==> r == Err::<(), VersionInfoManagerError>(
                VersionInfoManagerError::DuplicateLabel,
            ) && final(self)@ == old(self)@,
            !has_label(old(self)@, label@) && (forall|i: int|
                0 <= i < old(self)@.len() ==> !matches_id(
                    #[trigger] old(self)@[i],
                    *version_identifier,
                )) ==> r == Err::<(), VersionInfoManagerError>(
                VersionInfoManagerError::VersionIdentifierNotFound,
            ) && final(self)@ == old(self)@,
            !has_label(old(self)@, label@) && (exists|i: int|
                match_at(old(self)@, *version_identifier, i)) ==> r is Ok,
            r is Ok ==> !has_label(old(self)@, label@) && (exists|i: int|
                {
                    &&& match_at(old(self)@, *version_identifier, i)
                    &&& final(self)@.len() == old(self)@.len()
                    &&& (forall|j: int|
                        0 <= j < old(self)@.len() && j != i ==> final(self)@[j] == #[trigger] old(self)@[j])
                    &&& final(self)@[i].spec_index() == old(self)@[i].spec_index()
                    &&& final(self)@[i].spec_label() == Some(label)
                    &&& final(self)@[i].spec_message() == old(self)@[i].spec_message()
                }),
    {
        if self.contains_label(&label) {
            return Err(VersionInfoManagerError::DuplicateLabel);
        }
        match self.position_of(version_identifier) {
            Some(i) => {
                let v = &mut self.versions[i];
                v.set_label(label);
                Ok(())
            },
            None => Err(VersionInfoManagerError::VersionIdentifierNotFound),
        }
    }

    /// Appends bare metadata for the next version: its index is the number
    /// of infos stored so far.
    pub fn add_version_info(&mut self)
        ensures
            final(self)@.len() == old(self)@.len() + 1,
            final(self)@.take(old(self)@.len() as int) == old(self)@,
            final(self)@.last().spec_index() == old(self)@.len(),
            final(self)@.last().spec_label() is None,
            final(self)@.last().spec_message() is None,
    {
        let info = VersionInfo::new(self.versions.len());
        self.versions.push(info);
        proof {
            assert(self@.take(old(self)@.len() as int) =~= old(self)@);
        }
    }

    /// Appends bare metadata for the next version.
    pub fn add_version(&mut self)
        ensures
            final(self)@.len() == old(self)@.len() + 1,
            final(self)@.take(old(self)@.len() as int) == old(self)@,
            final(self)@.last().spec_index() == old(self)@.len(),
            final(self)@.last().spec_label() is None,
            final(self)@.last().spec_message() is None,
    {
        self.add_version_info();
    }

    /// Drops the info the identifier names and everything after it, going by
    /// the stored index of that info.  An identifier that matches nothing
    /// leaves the table unchanged.
    pub fn remove_version(&mut self, version_identifier: &VersionIdentifier)
        ensures
            (forall|i: int|
                0 <= i < old(self)@.len() ==> !matches_id(
                    #[trigger] old(self)@[i],
                    *version_identifier,
                )) ==> final(self)@ == old(self)@,
            (exists|i: int| match_at(old(self)@, *version_identifier, i)) ==> (exists|i: int|
                match_at(old(self)@, *version_identifier, i) && final(self)@ == if old(
                    self,
                )@[i].spec_index() <= old(self)@.len() {
                    old(self)@.take(old(self)@[i].spec_index() as int)
                } else {
                    old(self)@
                }),
    {
        match self.position_of(version_identifier) {
            Some(i) => {
                let index = self.versions[i].index();
                self.versions.truncate(index);
            },
            None => {},
        }
    }

    /// The number of stored infos.
    pub fn version_count(&self) -> (r: usize)
        ensures
            r == self@.len(),
    {
        self.versions.len()
    }

    /// The number of stored infos.
    pub fn len(&self) -> (r: usize)
        ensures
            r == self@.len(),
    {
        self.versions.len()
    }

    /// Whether the table is empty.
    pub fn is_empty(&self) -> (r: bool)
        ensures
            r == (self@.len() == 0),
    {
        self.versions.is_empty()
    }

    /// The index of the latest stored info, if any.
    pub fn latest_version_index(&self) -> (r: Option<usize>)
        ensures
            r == if self@.len() == 0 {
                None::<usize>
            } else {
                Some((self@.len() - 1) as usize)
            },
    {
        let count = self.versions.len();
        if count == 0 {
            None
        } else {
            Some(count - 1)
        }
    }

    /// Drops every stored info.
    pub fn clear(&mut self)
        ensures
            final(self)@ == Seq::<VersionInfo>::empty(),
    {
        self.versions.clear();
    }

    /// A fresh table for a forked history: it holds exactly one bare info,
    /// for version zero.
    pub fn fork(&self) -> (r: Self)
        ensures
            r@.len() == 1,
            r@[0].spec_index() == 0,
            r@[0].spec_label() is None,
            r@[0].spec_message() is None,
    {
        let mut forked = VersionInfoManager::new();
        forked.add_version();
        forked
    }
}

} // verus!
