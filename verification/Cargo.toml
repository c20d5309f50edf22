[package]
name = "au_splitter"
version = "0.1.0"
edition = "2021"
publish = false

[dependencies]
js-sys = "*"
wasm-bindgen = "*"
wasm-bindgen-futures = "*"
web-sys = { version = "*", features = [
    "CanvasRenderingContext2d",
    "console",
    "Document",
    "Element",
    "EncodedVideoChunk",
    "EncodedVideoChunkInit",
    "EncodedVideoChunkType",
    "ErrorEvent",
    "HardwareAcceleration",
    "HtmlCanvasElement",
    "Navigator",
    "VideoDecoder",
    "VideoDecoderConfig",
    "VideoDecoderInit",
    "VideoFrame",
    "WebGl2RenderingContext",
    "WebGlBuffer",
    "WebGlFramebuffer",
    "WebGlProgram",
    "WebGlShader",
    "WebGlTexture",
    "WebGlUniformLocation",
    "WebGlVertexArrayObject",
    "Window",
    "XrRenderStateInit",
    "XrSession",
    "XrSessionInit",
    "XrSessionMode",
    "XrSystem",
    "XrWebGlLayer",
] }
