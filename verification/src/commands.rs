//! The decisions of the application's commands: the message shown for an
//! error, and the test that a requested entry is among the listed ones.
use vstd::prelude::*;

use crate::boot::entry_ids;
use crate::error::{BootError, BootResult, ErrorModel};
use crate::models::{BootEntry, entry_models};
use crate::text;

verus! {

/// The message shown to the user for an error.
pub open spec fn error_message(e: ErrorModel) -> Seq<char> {
    match e {
        ErrorModel::UnsupportedPlatform => "当前平台暂不支持 UEFI 启动项管理"@,
        ErrorModel::NotUefi => "当前系统不是 UEFI 启动模式，BootNext 不可用"@,
        ErrorModel::PermissionDenied => "权限不足，请以管理员权限运行此操作"@,
        ErrorModel::CommandNotFound(s) => "找不到系统命令："@ + s,
        ErrorModel::CommandFailed(s) => "系统命令执行失败："@ + s,
        ErrorModel::ParseError(s) => "启动项输出解析失败："@ + s,
        ErrorModel::InvalidBootId(s) => "非法启动项 ID："@ + s,
        ErrorModel::BootEntryNotFound(s) => "启动项不存在："@ + s,
        ErrorModel::RebootFailed(s) => "重启失败："@ + s,
        ErrorModel::Unknown(s) => s,
    }
}

/// The message shown to the user for an error.
pub fn readable(error: BootError) -> (r: String)
    ensures
        r@ == error_message(error@),
{
    match error {
        BootError::UnsupportedPlatform => text::owned("当前平台暂不支持 UEFI 启动项管理"),
        BootError::NotUefi => text::owned("当前系统不是 UEFI 启动模式，BootNext 不可用"),
        BootError::PermissionDenied => text::owned("权限不足，请以管理员权限运行此操作"),
        BootError::CommandNotFound(s) => text::concat_string("找不到系统命令：", s.as_str()),
        BootError::CommandFailed(s) => text::concat_string("系统命令执行失败：", s.as_str()),
        BootError::ParseError(s) => text::concat_string("启动项输出解析失败：", s.as_str()),
        BootError::InvalidBootId(s) => text::concat_string("非法启动项 ID：", s.as_str()),
        BootError::BootEntryNotFound(s) => text::concat_string("启动项不存在：", s.as_str()),
        BootError::RebootFailed(s) => text::concat_string("重启失败：", s.as_str()),
        BootError::Unknown(s) => s,
    }
}

/// Accepts a requested entry only where the listed entries hold one with
/// that identifier.
pub fn require_listed(entries: &Vec<BootEntry>, id: &str) -> (r: BootResult<()>)
    ensures
        r is Ok <==> entry_ids(entry_models(entries@)).contains(id@),
        r matches Err(e) ==> e@ == ErrorModel::BootEntryNotFound(id@),
{
    if crate::boot::lists_id(entries, id) {
        Ok(())
    } else {
        Err(BootError::BootEntryNotFound(text::owned(id)))
    }
}

} // verus!
