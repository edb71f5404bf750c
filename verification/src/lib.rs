pub mod alphabet;
pub mod alphabets;
pub mod bignat;
pub mod decode;
pub mod encode;
pub mod error;
pub mod fermat;
pub mod math;
pub mod numeral;
pub mod obfusbit;
pub mod obfusbit_schema;
pub mod obfuskey;
pub mod packing;
pub mod primes;
pub mod text;

pub use alphabet::Alphabet;
pub use bignat::BigNat;
pub use error::ObfuskeyError;
pub use obfusbit::{ByteOrder, Obfusbit, PackedBig, PackedU64, UnpackDataBig, UnpackDataU64};
pub use obfusbit_schema::{FieldInfo, FieldSchema, FieldValues, ObfusbitSchema};
pub use obfuskey::Obfuskey;
