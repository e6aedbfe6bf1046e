use vstd::prelude::*;

use object::Object;
use object::ObjectSection;

use crate::arch::{ArchMode, ObjectArch};

verus! {

/// The sections of an object file, in file order, each as the bytes of its name
/// and its contents; `None` when the file, or a section's name or data, does not
/// parse.
pub uninterp spec fn object_sections(bytes: Seq<u8>) -> Option<Seq<(Seq<u8>, Seq<u8>)>>;

/// The architecture that an object file declares; `None` when it does not parse.
pub uninterp spec fn object_arch(bytes: Seq<u8>) -> Option<ObjectArch>;

pub open spec fn section_views(v: Seq<(Vec<u8>, Vec<u8>)>) -> Seq<(Seq<u8>, Seq<u8>)> {
    v.map_values(|p: (Vec<u8>, Vec<u8>)| (p.0@, p.1@))
}

/// Relies on object::File::parse, object::Object::sections and
/// object::ObjectSection::{name, data}: the sections in file order, with the
/// bytes of each name and of each section's data. A file, or a section name or
/// data, that does not parse gives `None`.
#[verifier::external_body]
fn read_sections(bytes: &Vec<u8>) -> (r: Option<Vec<(Vec<u8>, Vec<u8>)>>)
    ensures
        match r {
            Some(v) => object_sections(bytes@) == Some(section_views(v@)),
            None => object_sections(bytes@) is None,
        },
{
    let file = object::File::parse(bytes.as_slice()).ok()?;
    let mut out = Vec::new();
    for s in file.sections() {
        out.push((s.name().ok()?.as_bytes().to_vec(), s.data().ok()?.to_vec()));
    }
    Some(out)
}

/// Relies on object::File::parse and object::Object::architecture: the declared
/// architecture, mapped variant by variant; `None` when the file does not parse.
#[verifier::external_body]
fn read_architecture(bytes: &Vec<u8>) -> (r: Option<ObjectArch>)
    ensures
        r == object_arch(bytes@),
{
    let file = object::File::parse(bytes.as_slice()).ok()?;
    Some(
        match file.architecture() {
            object::Architecture::X86_64 => ObjectArch::X86_64,
            object::Architecture::X86_64_X32 => ObjectArch::X86_64X32,
            object::Architecture::Aarch64 => ObjectArch::Aarch64,
            object::Architecture::Arm => ObjectArch::Arm,
            object::Architecture::LoongArch64 => ObjectArch::LoongArch64,
            _ => ObjectArch::Unsupported,
        },
    )
}

/// The name holds "text".
pub open spec fn is_text_name(name: Seq<u8>) -> bool {
    exists|i: int| 0 <= i && i + 4 <= name.len() && #[trigger] name.subrange(i, i + 4) == seq![116u8, 101u8, 120u8, 116u8]
}

/// The data of every section whose name holds "text", one after the other.
pub open spec fn text_of(sections: Seq<(Seq<u8>, Seq<u8>)>) -> Seq<u8>
    decreases sections.len(),
{
    if sections.len() == 0 {
        seq![]
    } else {
        text_of(sections.drop_last()) + if is_text_name(sections.last().0) {
            sections.last().1
        } else {
            seq![]
        }
    }
}

fn is_text(name: &Vec<u8>) -> (r: bool)
    ensures
        r == is_text_name(name@),
{
    let n = name.len();
    if n < 4 {
        return false;
    }
    let mut i: usize = 0;
    while i < n - 3
        invariant
            n == name@.len(),
            n >= 4,
            i <= n - 3,
            forall|j: int| 0 <= j < i && j + 4 <= n ==> #[trigger] name@.subrange(j, j + 4) != seq![116u8, 101u8, 120u8, 116u8],
        decreases n - i,
    {
        if name[i] == 116u8 && name[i + 1] == 101u8 && name[i + 2] == 120u8 && name[i + 3] == 116u8 {
            assert(name@.subrange(i as int, i as int + 4) =~= seq![116u8, 101u8, 120u8, 116u8]);
            return true;
        }
        proof {
            let s = name@.subrange(i as int, i as int + 4);
            if s == seq![116u8, 101u8, 120u8, 116u8] {
                assert(s[0] == name@[i as int]);
                assert(s[1] == name@[i as int + 1]);
                assert(s[2] == name@[i as int + 2]);
                assert(s[3] == name@[i as int + 3]);
            }
        }
        i += 1;
    }
    false
}

/// Joins the data of the sections whose name holds "text", in order.
pub fn join_text_sections(sections: &Vec<(Vec<u8>, Vec<u8>)>) -> (r: Vec<u8>)
    ensures
        r@ == text_of(section_views(sections@)),
{
    let mut out: Vec<u8> = Vec::new();
    let mut k: usize = 0;
    while k < sections.len()
        invariant
            k <= sections@.len(),
            out@ == text_of(section_views(sections@).subrange(0, k as int)),
        decreases sections@.len() - k,
    {
        proof {
            let v = section_views(sections@);
            assert(v.subrange(0, k as int + 1).drop_last() =~= v.subrange(0, k as int));
            assert(v.subrange(0, k as int + 1).last() == v[k as int]);
        }
        let (name, data) = &sections[k];
        if is_text(name) {
            let mut j: usize = 0;
            let ghost before = out@;
            while j < data.len()
                invariant
                    j <= data@.len(),
                    out@ == before + data@.subrange(0, j as int),
                decreases data@.len() - j,
            {
                out.push(data[j]);
                proof {
                    assert(data@.subrange(0, j as int + 1) =~= data@.subrange(0, j as int).push(data@[j as int]));
                }
                j += 1;
            }
            assert(data@.subrange(0, j as int) =~= data@);
        } else {
            assert(out@ =~= out@ + Seq::<u8>::empty());
        }
        k += 1;
    }
    assert(section_views(sections@).subrange(0, k as int) =~= section_views(sections@));
    out
}

#[derive(Clone, Copy, Debug, PartialEq, Eq, Structural)]
pub enum LoadError {
    /// The bytes are not an object file.
    Parse,
    /// The object file's architecture has no disassembler configuration.
    UnsupportedArchitecture,
}

/// The disassembler configuration and the joined text sections of an object
/// file.
pub fn load_text(bytes: &Vec<u8>) -> (r: Result<(ArchMode, Vec<u8>), LoadError>)
    ensures
        (object_arch(bytes@) is None || object_sections(bytes@) is None) ==> r == Err::<(ArchMode, Vec<u8>), LoadError>(
            LoadError::Parse,
        ),
        (object_arch(bytes@) is Some && object_sections(bytes@) is Some) ==> match r {
            Ok((m, text)) => crate::arch::arch_mode_spec(object_arch(bytes@)->0) == Some(m) && text@ == text_of(
                object_sections(bytes@)->0,
            ),
            Err(e) => e == LoadError::UnsupportedArchitecture && crate::arch::arch_mode_spec(object_arch(bytes@)->0) is None,
        },
{
    let arch = match read_architecture(bytes) {
        Some(a) => a,
        None => {
            return Err(LoadError::Parse);
        },
    };
    let sections = match read_sections(bytes) {
        Some(s) => s,
        None => {
            return Err(LoadError::Parse);
        },
    };
    let mode = match ArchMode::from_object(arch) {
        Some(m) => m,
        None => {
            return Err(LoadError::UnsupportedArchitecture);
        },
    };
    Ok((mode, join_text_sections(&sections)))
}

} // verus!
