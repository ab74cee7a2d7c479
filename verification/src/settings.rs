//! The user's settings and their defaults.

use vstd::prelude::*;
use crate::text::{extend_str, from_chars, str_eq, to_chars, trim, trim_str};

verus! {

/// Settings that shape recording, processing and sharing. The screen
/// target and the hardware tier override are kept beside these by the app.
pub struct Settings {
    pub onboarded: bool,
    pub user_name: String,
    pub language: Option<String>,
    pub mic_device: Option<String>,
    pub loopback_device: Option<String>,
    pub capture_system: bool,
    pub video_enabled: bool,
    pub video_fps: u32,
    pub video_max_height: u32,
    pub live_asr_model: Option<String>,
    pub quality_asr_model: Option<String>,
    pub llm_model: Option<String>,
    pub hotkey: String,
    pub detection_enabled: bool,
    pub audio_activity_enabled: bool,
    pub never_apps: Vec<String>,
    pub popup_timeout_secs: u64,
    pub close_to_tray: bool,
    /// "bundled" (a model run in-process) or "openai" (an OpenAI-compatible endpoint).
    pub llm_backend: String,
    pub llm_endpoint: String,
    pub llm_endpoint_model: String,
    pub llm_api_key: Option<String>,
    pub cleanup_enabled: bool,
    pub diarize_enabled: bool,
    pub summary_enabled: bool,
    pub default_template_id: String,
    pub share_port: u16,
    /// Calendar feeds (.ics addresses) or local files.
    pub calendar_sources: Vec<String>,
    pub calendar_refresh_min: u64,
    /// Where each finished meeting is posted, when enabled.
    pub webhook_url: String,
    pub webhook_enabled: bool,
    pub auto_update_check: bool,
}

/// The settings key under which the settings are stored.
pub const SETTINGS_KEY: &'static str = "settings";

impl Default for Settings {
    fn default() -> (s: Settings)
        ensures
            !s.onboarded,
            s.user_name@ == "Me"@,
            s.language.is_some() && s.language.unwrap()@ == "en"@,
            s.mic_device.is_none(),
            s.loopback_device.is_none(),
            s.capture_system,
            s.video_enabled,
            s.video_fps == 15,
            s.video_max_height == 1080,
            s.live_asr_model.is_none(),
            s.quality_asr_model.is_none(),
            s.llm_model.is_none(),
            s.hotkey@ == "CmdOrCtrl+Shift+R"@,
            s.detection_enabled,
            s.audio_activity_enabled,
            s.never_apps@.len() == 0,
            s.popup_timeout_secs == 30,
            s.close_to_tray,
            s.llm_backend@ == "bundled"@,
            s.llm_endpoint@ == "http://localhost:11434/v1"@,
            s.llm_endpoint_model@ == "qwen3:8b"@,
            s.llm_api_key.is_none(),
            s.cleanup_enabled,
            s.diarize_enabled,
            s.summary_enabled,
            s.default_template_id@ == "general"@,
            s.share_port == 47123,
            s.calendar_sources@.len() == 0,
            s.calendar_refresh_min == 15,
            s.webhook_url@.len() == 0,
            !s.webhook_enabled,
            s.auto_update_check,
    {
        Settings {
            onboarded: false,
            user_name: "Me".to_owned(),
            language: Some("en".to_owned()),
            mic_device: None,
            loopback_device: None,
            capture_system: true,
            video_enabled: true,
            video_fps: 15,
            video_max_height: 1080,
            live_asr_model: None,
            quality_asr_model: None,
            llm_model: None,
            hotkey: "CmdOrCtrl+Shift+R".to_owned(),
            detection_enabled: true,
            audio_activity_enabled: true,
            never_apps: Vec::new(),
            popup_timeout_secs: 30,
            close_to_tray: true,
            llm_backend: "bundled".to_owned(),
            llm_endpoint: "http://localhost:11434/v1".to_owned(),
            llm_endpoint_model: "qwen3:8b".to_owned(),
            llm_api_key: None,
            cleanup_enabled: true,
            diarize_enabled: true,
            summary_enabled: true,
            default_template_id: "general".to_owned(),
            share_port: 47123,
            calendar_sources: Vec::new(),
            calendar_refresh_min: 15,
            webhook_url: String::new(),
            webhook_enabled: false,
            auto_update_check: true,
        }
    }
}

impl Settings {
    /// The transcription and language models in use: each configured one,
    /// else the tier's default.
    pub fn model_ids(&self, tier_live: &String, tier_quality: &String, tier_llm: &String) -> (r: (String, String, String))
        ensures
            r.0@ == (match self.live_asr_model {
                Some(m) => m@,
                None => tier_live@,
            }),
            r.1@ == (match self.quality_asr_model {
                Some(m) => m@,
                None => tier_quality@,
            }),
            r.2@ == (match self.llm_model {
                Some(m) => m@,
                None => tier_llm@,
            }),
    {
        (
            crate::models::model_or_default(&self.live_asr_model, tier_live),
            crate::models::model_or_default(&self.quality_asr_model, tier_quality),
            crate::models::model_or_default(&self.llm_model, tier_llm),
        )
    }
}

/// The key under which a loaded language model is cached: the endpoint,
/// its model and whether a key is set for "openai", else the bundled model's id.
pub open spec fn llm_key_of(s: Settings, llm_id: Seq<char>) -> Seq<char> {
    if s.llm_backend@ == "openai"@ {
        "openai|"@ + s.llm_endpoint@ + "|"@ + s.llm_endpoint_model@ + "|"@ + if s.llm_api_key.is_some() {
            "true"@
        } else {
            "false"@
        }
    } else {
        "bundled|"@ + llm_id
    }
}

impl Settings {
    /// The cache key of the language model these settings select.
    pub fn llm_key(&self, llm_id: &str) -> (r: String)
        ensures
            r@ == llm_key_of(*self, llm_id@),
    {
        if str_eq(self.llm_backend.as_str(), "openai") {
            let mut v = to_chars("openai|");
            extend_str(&mut v, self.llm_endpoint.as_str());
            extend_str(&mut v, "|");
            extend_str(&mut v, self.llm_endpoint_model.as_str());
            extend_str(&mut v, "|");
            extend_str(&mut v, if self.llm_api_key.is_some() { "true" } else { "false" });
            from_chars(&v)
        } else {
            let mut v = to_chars("bundled|");
            extend_str(&mut v, llm_id);
            from_chars(&v)
        }
    }

    /// Where a finished meeting is posted: the trimmed webhook address,
    /// unless the webhook is off or has no address.
    pub fn webhook_target(&self) -> (r: Result<String, String>)
        ensures
            (self.webhook_enabled && trim(self.webhook_url@).len() > 0) <==> r.is_ok(),
            r.is_ok() ==> r.unwrap()@ == trim(self.webhook_url@),
            r.is_err() ==> r->Err_0@ == WEBHOOK_OFF@,
    {
        let url = trim_str(self.webhook_url.as_str());
        if !self.webhook_enabled || url.len() == 0 {
            return Err(WEBHOOK_OFF.to_owned());
        }
        Ok(from_chars(&url))
    }
}

/// Error when the webhook is off.
pub const WEBHOOK_OFF: &'static str = "webhook disabled";

/// Layers of a bundled language model put on the GPU: all of them when
/// there is one, none otherwise.
pub fn gpu_layers(has_gpu: bool) -> (r: u32)
    ensures
        r == (if has_gpu { 999u32 } else { 0u32 }),
{
    if has_gpu { 999 } else { 0 }
}

} // verus!
