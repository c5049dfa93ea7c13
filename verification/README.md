# ndnblk

Downloads all files of a Nitroflare folder by `aria2c`.

`src/` is a library that takes every decision, with contracts that Verus proves:

| Module | What it decides |
|---|---|
| `folder` | the user and folder of an address; the listing of a folder page by page |
| `plan` | which files are asked for, which fit into the daily traffic, which are ready |
| `api` | requests to the API, the daily traffic, the request for a download link with its retries |
| `download` | the arguments of `aria2c`; the download of a file with its checks and retries |
| `tor` | the proxy, and the clients behind it |
| `size` | sizes read from a listing and written for a reader |
| `decimal`, `binary64` | decimal numbers, and their rounding to 53 significant bits |
| `json`, `text`, `request`, `options` | plain values that the others work on |

A listing, the request for a link and a download are state machines: the library says what to
do next, the program in `app/` does it and hands back what came of it.

What is believed without proof stands next to the calls into other crates: reading JSON
(`json`), drawing a user agent and taking the address of a proxy (`tor`), and two functions of the standard library
(`str::to_lowercase` in `plan`, `String::push` in `text`).

## Usage

```
ndnblk <FOLDER_URL> [-d DIR] [--contains SUBSTRING] [--tor] [-v]
```

`NTFLR_USERNAME` and `NTFLR_PREMIUM` hold the account. Files go to `~/Downloads` unless `-d`
names another directory; the log goes to the console and to `./logs/`.
