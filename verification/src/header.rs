//! The archive header and the two variants of the format.
//!
//! A header is a copyright block (40 bytes in the base variant, 60 in the
//! expansion), a 4-byte version text, a 12-byte type text, the number of
//! tables and the offset at which the contents begin. Which variant a file
//! has is told by the four bytes at offset 64, before anything else is read.

use vstd::prelude::*;
use vstd::string::StringSliceAdditionalSpecFns;
use either::Either;
use crate::error::DrsError;
use crate::error::DrsErrorView;
use crate::validate::validate_str;
use crate::wire::bytes_at;
use crate::wire::can_read;
use crate::wire::read_block;
use crate::wire::read_u32;
use crate::wire::u32_at;

verus! {

/// The texts with which the copyright, version and type fields of a header
/// must begin, for the base variant and for the expansion.
pub const EXPECTED_AOE_COPYRIGHT: &'static str = "Copyright (c) 1997 Ensemble Studios.\u{1A}";

pub const EXPECTED_AOE_VERSION: &'static str = "1.00";

pub const EXPECTED_AOE_TYPE: &'static str = "tribe";

pub const EXPECTED_SWBG_COPYRIGHT: &'static str =
    "Copyright (c) 2001 LucasArts Entertainment Company LLC\u{1A}";

pub const EXPECTED_SWBG_VERSION: &'static str = "1.00";

pub const EXPECTED_SWBG_TYPE: &'static str = "swbg";

/// Length of the copyright block of the base variant.
pub const AOE_COPYRIGHT_LEN: usize = 40;

/// Length of the copyright block of the expansion variant.
pub const SWBG_COPYRIGHT_LEN: usize = 60;

/// Offset of the four bytes that tell the two variants apart. In the
/// expansion variant the type text starts there; in the base variant the
/// header has ended and the first table header starts there.
pub const GAME_TYPE_OFFSET: usize = 64;

/// The two variants of the format.
#[derive(Debug, Clone, Copy, PartialEq, Eq, Structural)]
pub enum DrsGameType {
    /// Age of Empires
    AOE,
    /// Star Wars Galactic Battlegrounds
    SWBG,
}

impl DrsGameType {
    /// Length of the variant's copyright block.
    pub open spec fn copyright_len(self) -> int {
        match self {
            DrsGameType::AOE => AOE_COPYRIGHT_LEN as int,
            DrsGameType::SWBG => SWBG_COPYRIGHT_LEN as int,
        }
    }

    /// Length of the variant's header: the copyright block, 4 bytes of
    /// version, 12 bytes of type and two 32-bit numbers.
    pub open spec fn header_len(self) -> int {
        self.copyright_len() + 24
    }

    /// The text with which the variant's copyright block must begin.
    pub open spec fn expected_copyright(self) -> Seq<u8> {
        match self {
            DrsGameType::AOE => EXPECTED_AOE_COPYRIGHT.spec_bytes(),
            DrsGameType::SWBG => EXPECTED_SWBG_COPYRIGHT.spec_bytes(),
        }
    }

    /// The text with which the variant's version field must begin.
    pub open spec fn expected_version(self) -> Seq<u8> {
        match self {
            DrsGameType::AOE => EXPECTED_AOE_VERSION.spec_bytes(),
            DrsGameType::SWBG => EXPECTED_SWBG_VERSION.spec_bytes(),
        }
    }

    /// The text with which the variant's type field must begin.
    pub open spec fn expected_type(self) -> Seq<u8> {
        match self {
            DrsGameType::AOE => EXPECTED_AOE_TYPE.spec_bytes(),
            DrsGameType::SWBG => EXPECTED_SWBG_TYPE.spec_bytes(),
        }
    }
}

/// The mathematical value of a header: its variant and its fields, the byte
/// blocks as sequences.
pub struct HeaderModel {
    pub game_type: DrsGameType,
    pub copyright: Seq<u8>,
    pub file_version: Seq<u8>,
    pub file_type: Seq<u8>,
    pub table_count: u32,
    pub file_offset: u32,
}

impl HeaderModel {
    /// The blocks have the lengths that the variant prescribes.
    pub open spec fn wf(self) -> bool {
        &&& self.copyright.len() == self.game_type.copyright_len()
        &&& self.file_version.len() == 4
        &&& self.file_type.len() == 12
    }

    /// Number of bytes that the header takes in a file.
    pub open spec fn len(self) -> int {
        self.game_type.header_len()
    }

    /// The copyright, version and type fields begin with the texts that the
    /// variant prescribes.
    pub open spec fn valid(self) -> bool {
        &&& self.game_type.expected_copyright().is_prefix_of(self.copyright)
        &&& self.game_type.expected_version().is_prefix_of(self.file_version)
        &&& self.game_type.expected_type().is_prefix_of(self.file_type)
    }
}

/// The variant of `file`: the expansion if the four bytes at offset 64 spell
/// `swbg`, the base variant for any other four bytes.
pub open spec fn spec_game_type(file: Seq<u8>) -> DrsGameType {
    if bytes_at(file, GAME_TYPE_OFFSET as int, 4) == EXPECTED_SWBG_TYPE.spec_bytes() {
        DrsGameType::SWBG
    } else {
        DrsGameType::AOE
    }
}

/// The header fields as they lie at the start of `file`, for a given variant.
pub open spec fn header_at(file: Seq<u8>, game_type: DrsGameType) -> HeaderModel {
    let c = game_type.copyright_len();
    HeaderModel {
        game_type,
        copyright: bytes_at(file, 0, c),
        file_version: bytes_at(file, c, 4),
        file_type: bytes_at(file, c + 4, 12),
        table_count: u32_at(file, c + 16),
        file_offset: u32_at(file, c + 20),
    }
}

/// What reading the header of `file` gives. The four bytes at offset 64 are
/// read first, then the whole header from the start of the file, and only
/// then are its texts checked.
pub open spec fn spec_header(file: Seq<u8>, file_name: Seq<char>) -> Result<
    HeaderModel,
    DrsErrorView,
> {
    if !can_read(file, GAME_TYPE_OFFSET as int, 4) {
        Err(DrsErrorView::Io)
    } else {
        let game_type = spec_game_type(file);
        if !can_read(file, 0, game_type.header_len()) {
            Err(DrsErrorView::Io)
        } else if !header_at(file, game_type).valid() {
            Err(DrsErrorView::InvalidDrs(file_name))
        } else {
            Ok(header_at(file, game_type))
        }
    }
}

/// The header of an archive. The copyright block is a `Left` in the base
/// variant and a `Right` in the expansion.
pub struct DrsHeader {
    pub copyright_info: Either<[u8; AOE_COPYRIGHT_LEN], [u8; SWBG_COPYRIGHT_LEN]>,
    pub file_version: [u8; 4],
    pub file_type: [u8; 12],
    pub table_count: u32,
    pub file_offset: u32,
}

impl View for DrsHeader {
    type V = HeaderModel;

    open spec fn view(&self) -> HeaderModel {
        HeaderModel {
            game_type: match self.copyright_info {
                Either::Left(_) => DrsGameType::AOE,
                Either::Right(_) => DrsGameType::SWBG,
            },
            copyright: match self.copyright_info {
                Either::Left(block) => block@,
                Either::Right(block) => block@,
            },
            file_version: self.file_version@,
            file_type: self.file_type@,
            table_count: self.table_count,
            file_offset: self.file_offset,
        }
    }
}

impl DrsHeader {
    /// The value of the empty header: the base variant, every byte and
    /// number zero.
    pub open spec fn spec_empty() -> HeaderModel {
        HeaderModel {
            game_type: DrsGameType::AOE,
            copyright: Seq::new(AOE_COPYRIGHT_LEN as nat, |i: int| 0u8),
            file_version: Seq::new(4, |i: int| 0u8),
            file_type: Seq::new(12, |i: int| 0u8),
            table_count: 0,
            file_offset: 0,
        }
    }

    /// A header of the base variant with every byte and number zero.
    pub fn empty() -> (header: DrsHeader)
        ensures
            header@ == DrsHeader::spec_empty(),
    {
        let header = DrsHeader {
            copyright_info: Either::Left([0u8; AOE_COPYRIGHT_LEN]),
            file_version: [0u8; 4],
            file_type: [0u8; 12],
            table_count: 0,
            file_offset: 0,
        };
        assert(header@.copyright =~= Seq::new(AOE_COPYRIGHT_LEN as nat, |i: int| 0u8));
        assert(header@.file_version =~= Seq::new(4, |i: int| 0u8));
        assert(header@.file_type =~= Seq::new(12, |i: int| 0u8));
        header
    }

    /// The variant of the format that the header belongs to.
    pub fn game_type(&self) -> (game_type: DrsGameType)
        ensures
            game_type == self@.game_type,
    {
        match self.copyright_info {
            Either::Left(_) => DrsGameType::AOE,
            Either::Right(_) => DrsGameType::SWBG,
        }
    }

    /// Number of bytes that the header takes in a file.
    pub fn len(&self) -> (len: usize)
        ensures
            len == self@.len(),
    {
        match self.copyright_info {
            Either::Left(_) => AOE_COPYRIGHT_LEN + 24,
            Either::Right(_) => SWBG_COPYRIGHT_LEN + 24,
        }
    }

    /// Reads the header of `file`, the contents of the file named
    /// `file_name`, and checks its texts.
    pub fn read_from_file(file: &[u8], file_name: &str) -> (r: Result<DrsHeader, DrsError>)
        ensures
            match r {
                Ok(header) => spec_header(file@, file_name@) == Ok::<HeaderModel, DrsErrorView>(
                    header@,
                ),
                Err(e) => spec_header(file@, file_name@) == Err::<HeaderModel, DrsErrorView>(e@),
            },
    {
        let type_str_buf = read_block::<4>(file, GAME_TYPE_OFFSET)?;
        let game_type = if is_text(&type_str_buf, EXPECTED_SWBG_TYPE) {
            DrsGameType::SWBG
        } else {
            DrsGameType::AOE
        };

        let copyright_info = match game_type {
            DrsGameType::AOE => {
                let buf = read_block::<AOE_COPYRIGHT_LEN>(file, 0)?;
                Either::Left(buf)
            },
            DrsGameType::SWBG => {
                let buf = read_block::<SWBG_COPYRIGHT_LEN>(file, 0)?;
                Either::Right(buf)
            },
        };
        let pos: usize = match game_type {
            DrsGameType::AOE => AOE_COPYRIGHT_LEN,
            DrsGameType::SWBG => SWBG_COPYRIGHT_LEN,
        };

        let file_version = read_block::<4>(file, pos)?;
        let file_type = read_block::<12>(file, pos + 4)?;
        let table_count = read_u32(file, pos + 16)?;
        let file_offset = read_u32(file, pos + 20)?;

        match game_type {
            DrsGameType::AOE => {
                validate_str(file_name, &copyright_info.left().unwrap(), EXPECTED_AOE_COPYRIGHT)?;
                validate_str(file_name, &file_version, EXPECTED_AOE_VERSION)?;
                validate_str(file_name, &file_type, EXPECTED_AOE_TYPE)?;
            },
            DrsGameType::SWBG => {
                validate_str(file_name, &copyright_info.right().unwrap(), EXPECTED_SWBG_COPYRIGHT)?;
                validate_str(file_name, &file_version, EXPECTED_SWBG_VERSION)?;
                validate_str(file_name, &file_type, EXPECTED_SWBG_TYPE)?;
            },
        }

        let header = DrsHeader {
            copyright_info: copyright_info,
            file_version: file_version,
            file_type: file_type,
            table_count: table_count,
            file_offset: file_offset,
        };

        Ok(header)
    }
}

/// Whether the four bytes `block` spell `text`.
fn is_text(block: &[u8; 4], text: &str) -> (r: bool)
    ensures
        r == (block@ == text.spec_bytes()),
{
    let expected = text.as_bytes();
    if expected.len() != 4 {
        return false;
    }
    let r = block[0] == expected[0] && block[1] == expected[1] && block[2] == expected[2]
        && block[3] == expected[3];
    assert(r == (block@ =~= expected@));
    r
}

} // verus!
