//! One record per directory child: its name, visibility, and the metadata
//! fields a long-layout row shows.

use vstd::prelude::*;
use crate::strutil::{dec_str, lemma_dec_str_len_u64, pad_left, push_spaces, u64_to_string};
use crate::human::{human_str, human_format};
use crate::timefmt::{timestamp_valid, timestamp_representable};

verus! {

/// The file type reported by the OS for a directory child.
#[derive(PartialEq, Eq, Structural, Clone, Copy, Debug)]
pub enum FileKind {
    Directory,
    Regular,
    Symlink,
    BlockDevice,
    CharDevice,
    Socket,
    Fifo,
    Other,
}

/// The plain values one metadata read of a child yields.
#[derive(PartialEq, Eq, Structural, Clone, Copy, Debug)]
pub struct MetaInfo {
    pub kind: FileKind,
    pub mode: u32,
    pub child_count: i32,
    pub uid: u32,
    pub gid: u32,
    pub size: u64,
    pub mtime: i64,
}

/// One directory child. Created with only a name and a visibility flag;
/// the other fields are filled by a metadata load and, for `size_format`,
/// by the human-size formatter.
#[derive(Debug)]
pub struct Entry {
    pub is_cur: bool,
    pub file_name: String,
    pub display: bool,
    pub size: u64,
    pub size_format: String,
    pub file_permission: String,
    pub files_number: i32,
    pub user_name: String,
    pub group_name: String,
    pub update_time: i64,
    pub has_mtime: bool,
}

/// The one-character type glyph of the permission field.
pub open spec fn type_glyph(k: FileKind) -> char {
    match k {
        FileKind::Directory => 'd',
        FileKind::Regular => '-',
        FileKind::Symlink => 'l',
        FileKind::BlockDevice => 'b',
        FileKind::CharDevice => 'c',
        FileKind::Socket => 's',
        FileKind::Fifo => 'p',
        FileKind::Other => '-',
    }
}

/// The glyph at position `i` of the template `rwxrwxrwx`.
pub open spec fn perm_template(i: int) -> char {
    if i % 3 == 0 {
        'r'
    } else if i % 3 == 1 {
        'w'
    } else {
        'x'
    }
}

/// One permission glyph: position `i` shows bit `8 - i` of the mode.
pub open spec fn perm_char(mode: u32, i: int) -> char {
    if (mode >> ((8 - i) as u32)) & 1 == 1 {
        perm_template(i)
    } else {
        '-'
    }
}

/// The nine permission glyphs. A mode whose binary form has fewer than nine
/// bits renders as nine dashes.
pub open spec fn perm_chars(mode: u32) -> Seq<char> {
    if mode < 256 {
        Seq::new(9, |i: int| '-')
    } else {
        Seq::new(9, |i: int| perm_char(mode, i))
    }
}

/// The ten-character permission field: the type glyph, then nine glyphs.
pub open spec fn perm_string(k: FileKind, mode: u32) -> Seq<char> {
    seq![type_glyph(k)] + perm_chars(mode)
}

/// The permission field is empty before a load and ten characters after one.
pub proof fn lemma_perm_string_len(k: FileKind, mode: u32)
    ensures
        perm_string(k, mode).len() == 10,
{
}

fn glyph_str(k: FileKind) -> (r: &'static str)
    ensures
        r@ == seq![type_glyph(k)],
{
    proof {
        reveal_strlit("d");
        reveal_strlit("-");
        reveal_strlit("l");
        reveal_strlit("b");
        reveal_strlit("c");
        reveal_strlit("s");
        reveal_strlit("p");
    }
    let r = match k {
        FileKind::Directory => "d",
        FileKind::Regular => "-",
        FileKind::Symlink => "l",
        FileKind::BlockDevice => "b",
        FileKind::CharDevice => "c",
        FileKind::Socket => "s",
        FileKind::Fifo => "p",
        FileKind::Other => "-",
    };
    proof {
        assert(r@ =~= seq![type_glyph(k)]);
    }
    r
}

/// Renders the ten-character permission field for a file type and mode.
pub fn permission_string(kind: FileKind, mode: u32) -> (r: String)
    ensures
        r@ == perm_string(kind, mode),
{
    let mut s = String::from_str(glyph_str(kind));
    if mode < 256 {
        s.append("---------");
        proof {
            reveal_strlit("---------");
            assert(s@ =~= perm_string(kind, mode));
        }
        s
    } else {
        let mut i: usize = 0;
        while i < 9
            invariant
                mode >= 256,
                i <= 9,
                s@ == seq![type_glyph(kind)] + Seq::new(i as nat, |j: int| perm_char(mode, j)),
            decreases 9 - i,
        {
            let sh: u32 = (8 - i) as u32;
            let glyph: &'static str = if (mode >> sh) & 1 == 1 {
                if i % 3 == 0 {
                    "r"
                } else if i % 3 == 1 {
                    "w"
                } else {
                    "x"
                }
            } else {
                "-"
            };
            proof {
                reveal_strlit("r");
                reveal_strlit("w");
                reveal_strlit("x");
                reveal_strlit("-");
                assert(glyph@ =~= seq![perm_char(mode, i as int)]);
            }
            s.append(glyph);
            proof {
                assert(Seq::new((i + 1) as nat, |j: int| perm_char(mode, j)) =~= Seq::new(
                    i as nat,
                    |j: int| perm_char(mode, j),
                ).push(perm_char(mode, i as int)));
                assert(s@ =~= seq![type_glyph(kind)] + Seq::new(
                    (i + 1) as nat,
                    |j: int| perm_char(mode, j),
                ));
            }
            i = i + 1;
        }
        proof {
            assert(s@ =~= perm_string(kind, mode));
        }
        s
    }
}

/// A freshly created entry: only the name and the dot-file visibility rule
/// are set; every derived field is at its default.
pub open spec fn fresh_entry(e: Entry, name: String) -> bool {
    &&& e.file_name == name
    &&& e.display == !(name@.len() > 0 && name@[0] == '.')
    &&& e.is_cur == false
    &&& e.size == 0
    &&& e.size_format@ == Seq::<char>::empty()
    &&& e.file_permission@ == Seq::<char>::empty()
    &&& e.files_number == 0
    &&& e.user_name@ == Seq::<char>::empty()
    &&& e.group_name@ == Seq::<char>::empty()
    &&& e.update_time == 0
    &&& e.has_mtime == false
}

/// How one metadata load transforms an entry: a failed read leaves it
/// untouched, a successful one fills every derived field.
pub open spec fn load_rel(pre: Entry, info: Option<MetaInfo>, post: Entry) -> bool {
    match info {
        None => post == pre,
        Some(m) => {
            &&& post.is_cur == pre.is_cur
            &&& post.file_name == pre.file_name
            &&& post.display == pre.display
            &&& post.size == m.size
            &&& post.size_format == pre.size_format
            &&& post.file_permission@ == perm_string(m.kind, m.mode)
            &&& post.files_number == (if m.kind == FileKind::Directory {
                m.child_count
            } else {
                1i32
            })
            &&& post.user_name@ == dec_str(m.uid as nat)
            &&& post.group_name@ == dec_str(m.gid as nat)
            &&& post.update_time == (if timestamp_valid(m.mtime as int) {
                m.mtime
            } else {
                0i64
            })
            &&& post.has_mtime == true
        },
    }
}

/// After any metadata load the permission field has length zero or ten:
/// ten once a read succeeded, and unchanged — so still empty for an entry
/// that began fresh — when the read failed.
pub proof fn lemma_permission_len(pre: Entry, info: Option<MetaInfo>, post: Entry)
    requires
        load_rel(pre, info, post),
        pre.file_permission@.len() == 0 || pre.file_permission@.len() == 10,
    ensures
        post.file_permission@.len() == 0 || post.file_permission@.len() == 10,
{
    match info {
        Some(m) => lemma_perm_string_len(m.kind, m.mode),
        None => {},
    }
}

/// The size column of a long row: the human form when present, else the raw
/// byte count, each left-padded to its column width.
pub open spec fn size_field_text(e: Entry, max_size_format: int, max_len: int) -> Seq<char> {
    if e.size_format@.len() > 0 {
        pad_left(e.size_format@, max_size_format)
    } else {
        pad_left(dec_str(e.size as nat), max_len)
    }
}

impl Entry {
    /// A fresh entry for a child with the given leaf name: hidden when the
    /// name starts with a dot, every derived field at its default.
    pub fn new(file_name: String) -> (e: Entry)
        ensures
            fresh_entry(e, file_name),
    {
        let len = file_name.as_str().unicode_len();
        let display = !(len > 0 && file_name.as_str().get_char(0) == '.');
        Entry {
            is_cur: false,
            file_name,
            display,
            size: 0,
            size_format: String::new(),
            file_permission: String::new(),
            files_number: 0,
            user_name: String::new(),
            group_name: String::new(),
            update_time: 0,
            has_mtime: false,
        }
    }

    /// The entry that stands for the listed directory itself, named `.`.
    pub fn from_cur() -> (e: Entry)
        ensures
            e.file_name@ == "."@,
            e.display == true,
            e.is_cur == true,
            e.size == 0,
            e.size_format@ == Seq::<char>::empty(),
            e.file_permission@ == Seq::<char>::empty(),
            e.files_number == 0,
            e.user_name@ == Seq::<char>::empty(),
            e.group_name@ == Seq::<char>::empty(),
            e.update_time == 0,
            e.has_mtime == false,
    {
        Entry {
            is_cur: true,
            file_name: String::from_str("."),
            display: true,
            size: 0,
            size_format: String::new(),
            file_permission: String::new(),
            files_number: 0,
            user_name: String::new(),
            group_name: String::new(),
            update_time: 0,
            has_mtime: false,
        }
    }

    /// The entry that stands for the parent directory, named `..`.
    pub fn from_parent() -> (e: Entry)
        ensures
            e.file_name@ == ".."@,
            e.display == true,
            e.is_cur == false,
            e.size == 0,
            e.size_format@ == Seq::<char>::empty(),
            e.file_permission@ == Seq::<char>::empty(),
            e.files_number == 0,
            e.user_name@ == Seq::<char>::empty(),
            e.group_name@ == Seq::<char>::empty(),
            e.update_time == 0,
            e.has_mtime == false,
    {
        Entry {
            is_cur: false,
            file_name: String::from_str(".."),
            display: true,
            size: 0,
            size_format: String::new(),
            file_permission: String::new(),
            files_number: 0,
            user_name: String::new(),
            group_name: String::new(),
            update_time: 0,
            has_mtime: false,
        }
    }

    /// The modification timestamp, if a metadata load supplied one.
    pub fn get_modified_time(&self) -> (r: Option<i64>)
        ensures
            r == (if self.has_mtime {
                Some(self.update_time)
            } else {
                None::<i64>
            }),
    {
        if self.has_mtime {
            Some(self.update_time)
        } else {
            None
        }
    }

    /// Fills the derived fields from one metadata read; a failed read
    /// (`None`) leaves every field at its previous value.
    pub fn load_info(&mut self, info: Option<MetaInfo>)
        ensures
            load_rel(*old(self), info, *final (self)),
    {
        match info {
            None => {},
            Some(m) => {
                self.file_permission = permission_string(m.kind, m.mode);
                self.files_number = match m.kind {
                    FileKind::Directory => m.child_count,
                    _ => 1,
                };
                self.user_name = u64_to_string(m.uid as u64);
                self.group_name = u64_to_string(m.gid as u64);
                self.size = m.size;
                self.update_time = if timestamp_representable(m.mtime) {
                    m.mtime
                } else {
                    0
                };
                self.has_mtime = true;
            },
        }
    }

    /// Renders `size` into the human-readable `size_format` field.
    pub fn format_entry_size(&mut self)
        ensures
            final (self).size_format@ == human_str(old(self).size as nat),
            final (self).is_cur == old(self).is_cur,
            final (self).file_name == old(self).file_name,
            final (self).display == old(self).display,
            final (self).size == old(self).size,
            final (self).file_permission == old(self).file_permission,
            final (self).files_number == old(self).files_number,
            final (self).user_name == old(self).user_name,
            final (self).group_name == old(self).group_name,
            final (self).update_time == old(self).update_time,
            final (self).has_mtime == old(self).has_mtime,
    {
        self.size_format = human_format(self.size);
    }

    /// The size column of a long row, left-padded to the given widths.
    pub fn get_file_size_display(&self, max_size_format: i32, max_len: i32) -> (r: String)
        requires
            self.size_format@.len() <= i32::MAX,
        ensures
            r@ == size_field_text(*self, max_size_format as int, max_len as int),
    {
        let mut pad = String::new();
        let sf = self.size_format.as_str();
        if sf.unicode_len() > 0 {
            let l = sf.unicode_len() as i32;
            if l < max_size_format {
                push_spaces(&mut pad, (max_size_format - l) as usize);
            }
            pad.append(sf);
        } else {
            let size_str = u64_to_string(self.size);
            proof {
                lemma_dec_str_len_u64(self.size);
            }
            let l = size_str.as_str().unicode_len() as i32;
            if l < max_len {
                push_spaces(&mut pad, (max_len - l) as usize);
            }
            pad.append(size_str.as_str());
        }
        proof {
            assert(pad@ =~= size_field_text(*self, max_size_format as int, max_len as int));
        }
        pad
    }
}

} // verus!
