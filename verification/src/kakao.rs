//! Reading and answering KakaoTalk.
pub mod names;
pub mod windows;
