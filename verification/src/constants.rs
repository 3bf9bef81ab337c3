//! Bit assignments of the extractor's two flag sets and the tag names that
//! drive them.

use vstd::prelude::*;

verus! {

/// Field flag: the invoice number is being read.
pub const DANFE_FLAG: u8 = 0b00000001;

/// Field flag: the client's display name is being read.
pub const RAZAO_SOCIAL_FLAG: u8 = 0b00000010;

/// Field flag: the carrier's display name is being read.
pub const SHIPPING_COMPANY_FLAG: u8 = 0b00000100;

/// Field flag: the complementary-information text is being read.
pub const LOAD_CUBICAGE_FLAG: u8 = 0b00001000;

/// Field flag: the quantity is being read.
pub const QUANTITY_FLAG: u8 = 0b00010000;

/// Field flag: the access key is being read.
pub const ACCESS_KEY_FLAG: u8 = 0b00100000;

/// Backtrack flag: the reader is inside the client's record.
pub const RAZAO_SOCIAL_BACKTRACK_FLAG: u8 = 0b00000001;

/// Backtrack flag: the reader is inside the carrier's record.
pub const SHIPPING_COMPANY_BACKTRACK_FLAG: u8 = 0b00000010;

/// `nFat`, the tag of the invoice number.
pub const DANFE_TAG: [u8; 4] = [110, 70, 97, 116];

/// `infCpl`, the tag of the complementary-information text.
pub const LOAD_CUBICAGE_TAG: [u8; 6] = [105, 110, 102, 67, 112, 108];

/// `qVol`, the tag of the quantity.
pub const QUANTITY_TAG: [u8; 4] = [113, 86, 111, 108];

/// `chNFe`, the tag of the access key.
pub const ACCESS_KEY_TAG: [u8; 5] = [99, 104, 78, 70, 101];

/// `dest`, the tag that encloses the client's record.
pub const RAZAO_SOCIAL_FIRST_TAG: [u8; 4] = [100, 101, 115, 116];

/// `transporta`, the tag that encloses the carrier's record.
pub const SHIPPING_COMPANY_FIRST_TAG: [u8; 10] = [116, 114, 97, 110, 115, 112, 111, 114, 116, 97];

/// `xNome`, the display-name tag, found in the client's record and in the
/// carrier's.
pub const X_NOME: [u8; 5] = [120, 78, 111, 109, 101];

} // verus!
