//! Tags of tables, each as the big-endian number in its four bytes.

use vstd::prelude::*;

verus! {

pub const FTFH: u32 = 0x4654_4648;

pub const FTFG: u32 = 0x4654_4647;

pub const LOCA: u32 = 0x6C6F_6361;

pub const HHEA: u32 = 0x6868_6561;

pub const HMTX: u32 = 0x686D_7478;

pub const HEAD: u32 = 0x6865_6164;

pub const MAXP: u32 = 0x6D61_7870;

pub const CMAP: u32 = 0x636D_6170;

pub const GASP: u32 = 0x6761_7370;

pub const VHEA: u32 = 0x7668_6561;

pub const VMTX: u32 = 0x766D_7478;

pub const POST: u32 = 0x706F_7374;

pub const GLYF: u32 = 0x676C_7966;

pub const COLR: u32 = 0x434F_4C52;

pub const CPAL: u32 = 0x4350_414C;

pub const BRSH: u32 = 0x6272_7368;

pub const CGLF: u32 = 0x6367_6C66;

pub const EIMG: u32 = 0x6569_6D67;

pub const SCEN: u32 = 0x7363_656E;

pub const ASST: u32 = 0x6173_7374;

pub const SMAP: u32 = 0x736D_6170;

pub const FPID: u32 = 0x6670_6964;

pub const GANM: u32 = 0x6761_6E6D;

pub const VGRP: u32 = 0x7667_7270;

pub const VSTY: u32 = 0x7673_7479;

pub const CSTY: u32 = 0x6373_7479;

pub const ASSY: u32 = 0x6173_7379;

pub const SGRP: u32 = 0x7367_7270;

/// The private tables that a coloured font has no use for.
pub open spec fn is_private(tag: u32) -> bool {
    ||| tag == BRSH
    ||| tag == CGLF
    ||| tag == EIMG
    ||| tag == SCEN
    ||| tag == ASST
    ||| tag == SMAP
    ||| tag == FPID
    ||| tag == GANM
    ||| tag == VGRP
    ||| tag == VSTY
    ||| tag == CSTY
    ||| tag == ASSY
    ||| tag == SGRP
}

/// Whether a coloured font has no use for a table.
pub fn is_private_color_table(tag: u32) -> (r: bool)
    ensures
        r == is_private(tag),
{
    tag == BRSH || tag == CGLF || tag == EIMG || tag == SCEN || tag == ASST || tag == SMAP || tag
        == FPID || tag == GANM || tag == VGRP || tag == VSTY || tag == CSTY || tag == ASSY || tag
        == SGRP
}

} // verus!
