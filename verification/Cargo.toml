[package]
name = "rusted_cube"
version = "0.1.0"
edition = "2021"
publish = false

[dependencies]
glam = "*"
wasm-bindgen = "*"
js-sys = "*"
console_error_panic_hook = "*"
web-sys = { version = "*", features = ["Window", "Document", "Element", "HtmlElement", "HtmlCanvasElement", "EventTarget", "Event", "KeyboardEvent", "MouseEvent", "PointerEvent", "Performance", "VisibilityState", "Location", "WebSocket", "MessageEvent", "ErrorEvent", "BinaryType", "WebGl2RenderingContext", "WebGlBuffer", "WebGlProgram", "WebGlShader", "WebGlUniformLocation", "WebGlVertexArrayObject", "CssStyleDeclaration", "DomTokenList", "DomRect", "Navigator", "MediaQueryList", "AddEventListenerOptions"] }
three-d = { version = "*", features = ["egui-gui"] }
three-d-asset = "*"
tokio = { version = "*", features = ["macros", "rt-multi-thread"] }
